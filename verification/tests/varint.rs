use rumba_core::cache::CacheStats;
use rumba_core::expr::{Expr, ExprTy, Tag};
use rumba_core::varint::{make_mask, VarInt};

#[test]
fn masks_cover_the_low_bits() {
    assert_eq!(make_mask(0), 0);
    assert_eq!(make_mask(1), 1);
    assert_eq!(make_mask(8), 0xff);
    assert_eq!(make_mask(64), u64::MAX);
    assert_eq!(make_mask(200), u64::MAX);
}

#[test]
fn words_read_signed_and_masked() {
    let w = VarInt::new(0x1ff);
    assert_eq!(w.get(0xff), 0xff);
    assert_eq!(w.mask(0xf).raw(), 0xf);
    assert_eq!(w.get_signed(8, 0xff), -1);
    assert_eq!(VarInt::new(0x7f).get_signed(8, 0xff), 127);
}

#[test]
fn repr_shows_the_best_sign() {
    assert_eq!(VarInt::new(5).repr(8, 0xff, false, false), "5");
    assert_eq!(VarInt::new(0xff).repr(8, 0xff, false, false), "(-1)");
    assert_eq!(VarInt::new(0xfe).repr(8, 0xff, true, false), "(-0x2)");
    assert_eq!(VarInt::new(0x10).repr(8, 0xff, true, false), "0x10");
    assert_eq!(VarInt::new(0x10).repr(8, 0xff, true, true), "\\mathrm{0x10}");
    assert_eq!(VarInt::new(0xfe).repr(8, 0xff, true, true), "(-\\mathrm{0x2})");
    assert_eq!(VarInt::new(0xfe).repr(8, 0xff, false, true), "(-2)");
    assert_eq!(VarInt::new(0x1ab).repr(8, 0xff, true, false), "(-0x55)");
    assert_eq!(VarInt::new(0).repr(64, u64::MAX, false, false), "0");
    assert_eq!(
        VarInt::new(u64::MAX).repr(64, u64::MAX, true, false),
        "(-0x1)"
    );
    assert_eq!(
        VarInt::new(12345678901234567890).repr(64, u64::MAX, false, false),
        "(-6101065172474983726)"
    );
}

#[test]
fn nodes_report_their_kind() {
    assert_eq!(Expr::var(0).ty(), ExprTy::Var);
    assert_eq!(Expr::make_const(3).ty(), ExprTy::Const);
    assert_eq!(Expr::var(0).not().ty(), ExprTy::Not);
    assert_eq!(Expr::var(0).add(Expr::var(1)).ty(), ExprTy::Add);
    assert!(Expr::var(0).bitand(Expr::var(1)).tag() == Tag::And);
    assert!(Expr::scale(3, Expr::var(1)).tag() == Tag::Scale);
}

#[test]
fn cache_stats_start_empty() {
    let stats = CacheStats::default();
    assert_eq!(
        stats,
        CacheStats {
            hits: 0,
            misses: 0,
            entries: 0
        }
    );
}

#[test]
fn the_most_negative_word_is_shown_with_its_magnitude() {
    assert_eq!(
        VarInt::new(1u64 << 63).repr(64, u64::MAX, false, false),
        "(-9223372036854775808)"
    );
    assert_eq!(
        VarInt::new(1u64 << 63).repr(64, u64::MAX, true, false),
        "(-0x8000000000000000)"
    );
    assert_eq!(VarInt::new(0x80).repr(8, 0xff, false, false), "(-128)");
}
