use ftt::error::Error;
use ftt::simulate::Direction;

#[test]
fn valid_tokens_parse() {
    assert_eq!(Direction::try_from('w'), Ok(Direction::Up));
    assert_eq!(Direction::try_from('s'), Ok(Direction::Down));
    assert_eq!(Direction::try_from('a'), Ok(Direction::Left));
    assert_eq!(Direction::try_from('d'), Ok(Direction::Right));
}

#[test]
fn invalid_token_is_rejected() {
    match Direction::try_from('x') {
        Err(Error::Param(msg)) => assert_eq!(msg, "Direction cannot be x!"),
        other => panic!("expected a parameter error, got {:?}", other),
    }
}

#[test]
fn uppercase_token_is_rejected() {
    match Direction::try_from('W') {
        Err(Error::Param(msg)) => assert_eq!(msg, "Direction cannot be W!"),
        other => panic!("expected a parameter error, got {:?}", other),
    }
}
