use graph_store::AtomicIdContext;
use graph_store::Id;
use graph_store::IdContext;

#[test]
fn context_mints_increasing_distinct_ids() {
    let mut context: IdContext<()> = IdContext::new();
    let minted: Vec<u64> = (0..100).map(|_| context.next_id().into_raw()).collect();
    for (i, &raw) in minted.iter().enumerate() {
        assert_eq!(raw, i as u64);
    }
    for i in 0..minted.len() {
        for j in (i + 1)..minted.len() {
            assert!(minted[i] < minted[j]);
        }
    }
}

#[test]
fn context_resumes_from_given_value() {
    let mut context: IdContext<()> = IdContext::with_current_id(41);
    assert_eq!(context.next_id().into_raw(), 41);
    assert_eq!(context.next_id().into_raw(), 42);
    let mut copy = context.clone();
    assert_eq!(copy.next_id().into_raw(), 43);
    assert_eq!(context.next_id().into_raw(), 43);
}

#[test]
fn id_conversions() {
    let id: Id<()> = Id::from_raw(7);
    assert_eq!(id.into_raw(), 7);
    let cast: Id<String> = id.cast();
    assert_eq!(cast.into_raw(), 7);
    assert_eq!(id, Id::from_raw(7));
    assert!(Id::<()>::from_raw(1) < Id::from_raw(2));
}

#[test]
fn atomic_context_mints_distinct_ids() {
    let context: AtomicIdContext<()> = AtomicIdContext::new();
    let a = context.next_id().into_raw();
    let b = context.next_id().into_raw();
    assert_ne!(a, b);

    let resumed: AtomicIdContext<()> = AtomicIdContext::with_current_id(10);
    assert_eq!(resumed.next_id().into_raw(), 10);
    assert_eq!(resumed.next_id().into_raw(), 11);
}
