use lead_build::lang::expr::ExprPool;

#[test]
fn test_unique_id() {
    let mut pool = ExprPool::new();
    let mut seen: Vec<usize> = Vec::new();
    for _ in 0..1000 {
        let id = pool.unique_id().unwrap();
        assert!(!seen.contains(&id));
        seen.push(id);
    }
}
