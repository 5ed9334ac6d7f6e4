use rumba_core::cache::{CacheStats, LocalCache};
use rumba_core::expr::{Expr, VarId};

#[test]
fn a_local_cache_memoizes_and_counts() {
    let mut cache = LocalCache::new();
    let e = Expr::Add(vec![Expr::Var(VarId(0)), Expr::Var(VarId(1))]);
    let solved = Expr::Var(VarId(2));
    assert_eq!(cache.get(&e), None);
    cache.insert(Expr::Add(vec![Expr::Var(VarId(0)), Expr::Var(VarId(1))]), Expr::Var(VarId(2)));
    assert_eq!(cache.get(&e), Some(solved));
    cache.insert(Expr::Add(vec![Expr::Var(VarId(0)), Expr::Var(VarId(1))]), Expr::Const(3));
    assert_eq!(cache.get(&e), Some(Expr::Const(3)));
    assert_eq!(cache.stats(), CacheStats { hits: 2, misses: 1, entries: 1 });
    cache.clear();
    assert_eq!(cache.stats(), CacheStats { hits: 0, misses: 0, entries: 0 });
    assert_eq!(cache.get(&e), None);
}
