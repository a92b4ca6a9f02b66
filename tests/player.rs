use filler::player::Player;

#[test]
fn test_player_new_p1_vs_p2() {
    let (player, enemy) = Player::new("$$$ exec p1 :");
    assert_eq!(player._num, 1);
    assert_eq!(player.symbol, ('a', '@'));
    assert_eq!(enemy._num, 2);
    assert_eq!(enemy.symbol, ('s', '$'));

    let (player, enemy) = Player::new("$$$ exec p2 :");
    assert_eq!(player._num, 2);
    assert_eq!(player.symbol, ('s', '$'));
    assert_eq!(enemy._num, 1);
    assert_eq!(enemy.symbol, ('a', '@'));
}

#[test]
fn test_is_mine() {
    let p1 = Player {
        _num: 1,
        symbol: ('a', '@'),
        score: 0,
    };

    assert_eq!(p1.is_mine(&'a'), true);
    assert_eq!(p1.is_mine(&'@'), true);

    assert_eq!(p1.is_mine(&'s'), false);
    assert_eq!(p1.is_mine(&'$'), false);

    assert_eq!(p1.is_mine(&'.'), false);
}
