use legato::ir::Port;
use legato::resolve::{broadcast, port_for_instance, BroadcastError, Plan};

#[test]
fn one_to_one_is_zip() {
    assert_eq!(broadcast(&[1], &['a']), Ok(Plan::Zip(vec![(1, 'a')])));
}

#[test]
fn equal_lengths_zip() {
    assert_eq!(
        broadcast(&[1, 2, 3], &['a', 'b', 'c']),
        Ok(Plan::Zip(vec![(1, 'a'), (2, 'b'), (3, 'c')]))
    );
}

#[test]
fn single_source_broadcasts() {
    assert_eq!(broadcast(&[1], &['a', 'b', 'c']), Ok(Plan::OneToMany(1, vec!['a', 'b', 'c'])));
}

#[test]
fn single_sink_fans_in() {
    assert_eq!(broadcast(&[1, 2, 3], &['a']), Ok(Plan::ManyToOne(vec![1, 2, 3], 'a')));
}

#[test]
fn mismatched_arity_errors() {
    assert_eq!(broadcast(&[1, 2, 3], &['a', 'b']), Err(BroadcastError { src: 3, snk: 2 }));
}

#[test]
fn empty_selection_is_noop() {
    assert_eq!(broadcast::<i32, char>(&[], &['a']), Ok(Plan::Zip(vec![])));
    assert_eq!(broadcast::<i32, char>(&[1], &[]), Ok(Plan::Zip(vec![])));
}

#[test]
fn strided_and_sliced_ports_pick_one_instance() {
    assert_eq!(port_for_instance(&Port::Stride { start: 2, end: 10, stride: 3 }, 2), Port::Index(8));
    assert_eq!(port_for_instance(&Port::Slice(4, 8), 3), Port::Index(7));
    assert_eq!(port_for_instance(&Port::Named("freq".to_string()), 5), Port::Named("freq".to_string()));
    assert_eq!(port_for_instance(&Port::Index(1), 5), Port::Index(1));
    assert_eq!(port_for_instance(&Port::Omitted, 5), Port::Omitted);
}

#[test]
fn broadcast_error_message() {
    let e = broadcast(&[1, 2, 3], &['a', 'b']).unwrap_err();
    assert_eq!(
        e.to_string(),
        "cannot broadcast connection of arity 3:2 (neither side is 1 and lengths differ)"
    );
}
