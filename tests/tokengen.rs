use dnsfwd::evloop::TokenFactory;
use dnsfwd::tokengen::TokenGen;

#[test]
fn test_basic() {
    let mut tg = TokenGen::new();
    for j in 0..10 {
        for i in 0..64 {
            assert!(tg.acquire() == (j * 64) + i);
        }
        assert!(tg.len() == (j + 1) as usize);
    }
    for j in (0..10).rev() {
        for i in 0..64 {
            tg.release((j * 64) + i);
        }
        assert!(tg.len() == j as usize);
    }
}

#[test]
fn released_token_is_reused_first() {
    let mut tg = TokenGen::new();
    for _ in 0..5 {
        tg.acquire();
    }
    tg.release(2);
    assert_eq!(tg.acquire(), 2);
    assert_eq!(tg.acquire(), 5);
}

#[test]
fn factory_recycles_latest_release() {
    let mut f = TokenFactory::new();
    assert_eq!(f.acquire(), 1);
    assert_eq!(f.acquire(), 2);
    assert_eq!(f.acquire(), 3);
    f.release(1);
    f.release(3);
    assert_eq!(f.acquire(), 3);
    assert_eq!(f.acquire(), 1);
    assert_eq!(f.acquire(), 4);
}
