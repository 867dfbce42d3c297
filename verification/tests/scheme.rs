use crystald::error::SchemeError;
use crystald::model::Role;
use crystald::notify::{Notification, Readiness};
use crystald::request::{O_CREAT, O_RDONLY, O_RDWR, O_WRONLY};
use crystald::scheme::{AudioScheme, IdClass};

fn sink(scheme: &mut AudioScheme, path: &[u8]) -> usize {
    scheme.open(path, O_CREAT | O_RDONLY, 0, 0).unwrap()
}

fn source(scheme: &mut AudioScheme, path: &[u8]) -> usize {
    scheme.open(path, O_CREAT | O_WRONLY, 0, 0).unwrap()
}

fn attach(scheme: &mut AudioScheme, name: &[u8]) -> usize {
    scheme.open(name, 0, 0, 0).unwrap()
}

fn samples(scheme: &AudioScheme, owner: usize) -> Vec<i32> {
    scheme.buffer(owner).unwrap().as_slice().to_vec()
}

#[test]
fn new_scheme_knows_no_id() {
    let scheme = AudioScheme::new();
    assert_eq!(scheme.fevent(0, 0), Err(SchemeError::Ebadf));
    assert_eq!(scheme.resolve(7), Err(SchemeError::Ebadf));
    assert_eq!(scheme.lookup(b"sink"), None);
}

#[test]
fn create_sink_and_source() {
    let mut scheme = AudioScheme::new();
    let a = sink(&mut scheme, b"out?buf_sz=4");
    let b = source(&mut scheme, b"in?buf_sz=2");
    assert_ne!(a, b);
    assert_eq!(scheme.resolve(a), Ok(IdClass::Endpoint));
    assert_eq!(scheme.role(a), Some(Role::Sink));
    assert_eq!(scheme.role(b), Some(Role::Source));
    assert_eq!(scheme.lookup(b"out"), Some(a));
    assert_eq!(scheme.lookup(b"in"), Some(b));
    assert_eq!(samples(&scheme, a), vec![0, 0, 0, 0]);
    assert_eq!(samples(&scheme, b), vec![0, 0]);
    assert_eq!(scheme.attached(a).unwrap().len(), 0);
}

#[test]
fn create_needs_a_readable_buf_sz() {
    let mut scheme = AudioScheme::new();
    let flags = O_CREAT | O_RDONLY;
    assert_eq!(scheme.open(b"a", flags, 0, 0), Err(SchemeError::Einval));
    assert_eq!(scheme.open(b"a?", flags, 0, 0), Err(SchemeError::Einval));
    assert_eq!(scheme.open(b"a?size=4", flags, 0, 0), Err(SchemeError::Einval));
    assert_eq!(scheme.open(b"a?buf_sz=", flags, 0, 0), Err(SchemeError::Einval));
    assert_eq!(scheme.open(b"a?buf_sz=four", flags, 0, 0), Err(SchemeError::Einval));
    assert_eq!(scheme.open(b"a?buf_sz=-4", flags, 0, 0), Err(SchemeError::Einval));
    assert_eq!(scheme.open(b"a?buf_sz=4x", flags, 0, 0), Err(SchemeError::Einval));
    assert_eq!(scheme.open(b"a?buf_sz", flags, 0, 0), Err(SchemeError::Einval));
    assert_eq!(
        scheme.open(b"a?buf_sz=99999999999999999999999999", flags, 0, 0),
        Err(SchemeError::Einval)
    );
    assert_eq!(scheme.lookup(b"a"), None);
}

#[test]
fn duplicate_keys_are_refused() {
    let mut scheme = AudioScheme::new();
    let flags = O_CREAT | O_RDONLY;
    assert_eq!(scheme.open(b"a?buf_sz=4&buf_sz=4", flags, 0, 0), Err(SchemeError::Einval));
    assert_eq!(scheme.open(b"a?x=1&buf_sz=4&x=2", flags, 0, 0), Err(SchemeError::Einval));
    assert_eq!(scheme.open(b"a?x=1&x=1", 0, 0, 0), Err(SchemeError::Einval));
    assert!(scheme.open(b"a?x=1&buf_sz=4&y=2", flags, 0, 0).is_ok());
}

#[test]
fn pairs_need_an_equals_sign() {
    let mut scheme = AudioScheme::new();
    let flags = O_CREAT | O_RDONLY;
    assert_eq!(scheme.open(b"a?buf_sz=4&", flags, 0, 0), Err(SchemeError::Einval));
    assert_eq!(scheme.open(b"a?&buf_sz=4", flags, 0, 0), Err(SchemeError::Einval));
    assert_eq!(scheme.open(b"a?buf_sz=4&flag", flags, 0, 0), Err(SchemeError::Einval));
}

#[test]
fn role_flags_must_choose_one_role() {
    let mut scheme = AudioScheme::new();
    assert_eq!(scheme.open(b"a?buf_sz=4", O_CREAT | O_RDWR, 0, 0), Err(SchemeError::Einval));
    assert_eq!(scheme.open(b"a?buf_sz=4", O_CREAT, 0, 0), Err(SchemeError::Einval));
    assert!(scheme.open(b"a?buf_sz=4", O_CREAT | O_RDONLY, 0, 0).is_ok());
    assert!(scheme.open(b"b?buf_sz=4", O_CREAT | O_WRONLY, 0, 0).is_ok());
}

#[test]
fn path_must_be_utf8() {
    let mut scheme = AudioScheme::new();
    let flags = O_CREAT | O_RDONLY;
    assert_eq!(scheme.open(b"\xff?buf_sz=4", flags, 0, 0), Err(SchemeError::Einval));
    assert_eq!(scheme.open(b"a\xc3?buf_sz=4", flags, 0, 0), Err(SchemeError::Einval));
    assert_eq!(scheme.open(b"\xff", 0, 0, 0), Err(SchemeError::Einval));
    let id = scheme.open("caf\u{e9}?buf_sz=4".as_bytes(), flags, 0, 0).unwrap();
    assert_eq!(scheme.lookup("caf\u{e9}".as_bytes()), Some(id));
}

#[test]
fn text_after_a_second_query_mark_is_not_read() {
    let mut scheme = AudioScheme::new();
    let id = scheme.open(b"a?buf_sz=3?buf_sz=9", O_CREAT | O_RDONLY, 0, 0).unwrap();
    assert_eq!(scheme.buffer(id).unwrap().len(), 3);
    assert_eq!(scheme.lookup(b"a"), Some(id));
}

#[test]
fn attach_to_unknown_name_is_enoent() {
    let mut scheme = AudioScheme::new();
    assert_eq!(scheme.open(b"nowhere", 0, 0, 0), Err(SchemeError::Enoent));
    assert_eq!(scheme.open(b"nowhere?x=1", O_RDONLY, 0, 0), Err(SchemeError::Enoent));
    assert_eq!(scheme.attach_connection(b"nowhere"), Err(SchemeError::Enoent));
}

#[test]
fn attach_joins_the_connection_set() {
    let mut scheme = AudioScheme::new();
    let out = sink(&mut scheme, b"out?buf_sz=2");
    let c = attach(&mut scheme, b"out");
    assert_eq!(scheme.resolve(c), Ok(IdClass::Connection));
    assert_eq!(scheme.target(c), Some(out));
    assert_eq!(scheme.attached(out).unwrap(), &[c][..]);
    let d = scheme.open(b"out?any=thing", O_WRONLY, 0, 0).unwrap();
    assert_ne!(c, d);
    let mut both = vec![c, d];
    both.sort();
    assert_eq!(scheme.attached(out).unwrap(), &both[..]);
}

#[test]
fn shadow_buffers_have_the_sinks_length() {
    let mut scheme = AudioScheme::new();
    let out = sink(&mut scheme, b"out?buf_sz=5");
    let src = source(&mut scheme, b"in?buf_sz=3");
    let to_sink = attach(&mut scheme, b"out");
    let to_source = attach(&mut scheme, b"in");
    assert_eq!(samples(&scheme, to_sink), vec![0; 5]);
    assert!(scheme.buffer(to_source).is_none());
    assert_eq!(scheme.buffer(out).unwrap().len(), 5);
    assert_eq!(scheme.buffer(src).unwrap().len(), 3);
}

#[test]
fn ids_are_pairwise_distinct() {
    let mut scheme = AudioScheme::new();
    let mut ids = Vec::new();
    ids.push(sink(&mut scheme, b"out?buf_sz=1"));
    for _ in 0..200 {
        ids.push(attach(&mut scheme, b"out"));
    }
    for i in 0..50 {
        let path = format!("e{}?buf_sz=1", i);
        ids.push(source(&mut scheme, path.as_bytes()));
    }
    let mut sorted = ids.clone();
    sorted.sort();
    sorted.dedup();
    assert_eq!(sorted.len(), ids.len());
    for id in ids {
        assert_eq!(scheme.fevent(id, 0), Ok(id));
    }
}

#[test]
fn fevent_acknowledges_live_ids() {
    let mut scheme = AudioScheme::new();
    let out = sink(&mut scheme, b"out?buf_sz=1");
    let c = attach(&mut scheme, b"out");
    assert_eq!(scheme.fevent(out, 0), Ok(out));
    assert_eq!(scheme.fevent(c, 2), Ok(c));
    let mut unknown = 0;
    while unknown == out || unknown == c {
        unknown += 1;
    }
    assert_eq!(scheme.fevent(unknown, 0), Err(SchemeError::Ebadf));
}

#[test]
fn map_wants_the_exact_size_in_bytes() {
    let mut scheme = AudioScheme::new();
    let out = sink(&mut scheme, b"out?buf_sz=256");
    assert_eq!(scheme.fmap(out, 0, 1024), Ok(out));
    assert_eq!(scheme.fmap(out, 0, 256), Err(SchemeError::Einval));
    assert_eq!(scheme.fmap(out, 0, 1023), Err(SchemeError::Einval));
    assert_eq!(scheme.fmap(out, 0, 1025), Err(SchemeError::Einval));
    assert_eq!(scheme.fmap(out, 0, 1028), Err(SchemeError::Einval));
    assert_eq!(scheme.fmap(out, 0, 0), Err(SchemeError::Einval));
}

#[test]
fn map_of_an_empty_buffer() {
    let mut scheme = AudioScheme::new();
    let out = sink(&mut scheme, b"out?buf_sz=0");
    assert_eq!(scheme.fmap(out, 0, 0), Ok(out));
    assert_eq!(scheme.fmap(out, 0, 4), Err(SchemeError::Einval));
}

#[test]
fn map_refuses_offsets_and_unknown_ids() {
    let mut scheme = AudioScheme::new();
    let out = sink(&mut scheme, b"out?buf_sz=2");
    assert_eq!(scheme.fmap(out, 4, 8), Err(SchemeError::Einval));
    assert_eq!(scheme.fmap(out, 1, 8), Err(SchemeError::Einval));
    let unknown = if out == 5 { 6 } else { 5 };
    assert_eq!(scheme.fmap(unknown, 0, 8), Err(SchemeError::Ebadf));
    assert_eq!(scheme.fmap(unknown, 8, 8), Err(SchemeError::Einval));
}

#[test]
fn map_of_a_connection_reaches_the_right_buffer() {
    let mut scheme = AudioScheme::new();
    let out = sink(&mut scheme, b"out?buf_sz=2");
    let src = source(&mut scheme, b"in?buf_sz=3");
    let to_sink = attach(&mut scheme, b"out");
    let to_source = attach(&mut scheme, b"in");
    assert_eq!(scheme.fmap(to_sink, 0, 8), Ok(to_sink));
    assert_eq!(scheme.fmap(to_sink, 0, 12), Err(SchemeError::Einval));
    assert_eq!(scheme.fmap(to_source, 0, 12), Ok(src));
    assert_eq!(scheme.fmap(to_source, 0, 8), Err(SchemeError::Einval));
    assert_eq!(scheme.fmap(out, 0, 8), Ok(out));
}

#[test]
fn write_is_bounds_checked() {
    let mut scheme = AudioScheme::new();
    let out = sink(&mut scheme, b"out?buf_sz=2");
    let src = source(&mut scheme, b"in?buf_sz=2");
    let to_source = attach(&mut scheme, b"in");
    assert_eq!(scheme.write(out, &[1, 2]), Ok(2));
    assert_eq!(samples(&scheme, out), vec![1, 2]);
    assert_eq!(scheme.write(out, &[1, 2, 3]), Err(SchemeError::Einval));
    assert_eq!(scheme.write(out, &[1]), Err(SchemeError::Einval));
    assert_eq!(samples(&scheme, out), vec![1, 2]);
    assert_eq!(scheme.write(to_source, &[1, 2]), Err(SchemeError::Ebadf));
    assert_eq!(scheme.write(src, &[7, 8]), Ok(2));
    assert_eq!(samples(&scheme, src), vec![7, 8]);
}

#[test]
fn mixdown_of_two_equal_inputs() {
    let mut scheme = AudioScheme::new();
    let out = sink(&mut scheme, b"out?buf_sz=1");
    let a = attach(&mut scheme, b"out");
    let b = attach(&mut scheme, b"out");
    scheme.write(a, &[100]).unwrap();
    scheme.write(b, &[100]).unwrap();
    let mut outbox = Vec::new();
    assert_eq!(scheme.fsync(out, &mut outbox), Ok(0));
    assert_eq!(samples(&scheme, out), vec![100]);
}

#[test]
fn mixdown_halves_each_input_before_summing() {
    let mut scheme = AudioScheme::new();
    let out = sink(&mut scheme, b"out?buf_sz=1");
    let a = attach(&mut scheme, b"out");
    let b = attach(&mut scheme, b"out");
    scheme.write(a, &[100]).unwrap();
    scheme.write(b, &[3]).unwrap();
    let mut outbox = Vec::new();
    assert_eq!(scheme.fsync(out, &mut outbox), Ok(0));
    assert_eq!(samples(&scheme, out), vec![51]);
}

#[test]
fn mixdown_rounds_negative_halves_down() {
    let mut scheme = AudioScheme::new();
    let out = sink(&mut scheme, b"out?buf_sz=3");
    let a = attach(&mut scheme, b"out");
    let b = attach(&mut scheme, b"out");
    scheme.write(a, &[-3, -1, 7]).unwrap();
    scheme.write(b, &[-3, 1, -8]).unwrap();
    let mut outbox = Vec::new();
    scheme.fsync(out, &mut outbox).unwrap();
    assert_eq!(samples(&scheme, out), vec![-4, -1, -1]);
}

#[test]
fn mixdown_overwrites_the_aggregate() {
    let mut scheme = AudioScheme::new();
    let out = sink(&mut scheme, b"out?buf_sz=2");
    scheme.write(out, &[55, 66]).unwrap();
    let mut outbox = Vec::new();
    scheme.fsync(out, &mut outbox).unwrap();
    assert_eq!(samples(&scheme, out), vec![0, 0]);
    assert!(outbox.is_empty());
    let a = attach(&mut scheme, b"out");
    scheme.write(a, &[10, -10]).unwrap();
    scheme.fsync(out, &mut outbox).unwrap();
    scheme.fsync(out, &mut outbox).unwrap();
    assert_eq!(samples(&scheme, out), vec![5, -5]);
    assert_eq!(samples(&scheme, a), vec![10, -10]);
}

#[test]
fn two_full_scale_inputs_do_not_clip() {
    let mut scheme = AudioScheme::new();
    let out = sink(&mut scheme, b"out?buf_sz=2");
    let a = attach(&mut scheme, b"out");
    let b = attach(&mut scheme, b"out");
    scheme.write(a, &[i32::MAX, i32::MIN]).unwrap();
    scheme.write(b, &[i32::MAX, i32::MIN]).unwrap();
    let mut outbox = Vec::new();
    scheme.fsync(out, &mut outbox).unwrap();
    assert_eq!(samples(&scheme, out), vec![i32::MAX - 1, i32::MIN]);
}

#[test]
fn three_full_scale_inputs_clip() {
    let mut scheme = AudioScheme::new();
    let out = sink(&mut scheme, b"out?buf_sz=2");
    for _ in 0..3 {
        let c = attach(&mut scheme, b"out");
        scheme.write(c, &[i32::MAX, i32::MIN]).unwrap();
    }
    let mut outbox = Vec::new();
    scheme.fsync(out, &mut outbox).unwrap();
    assert_eq!(samples(&scheme, out), vec![i32::MAX, i32::MIN]);
}

#[test]
fn sink_sync_notifies_in_ascending_order() {
    let mut scheme = AudioScheme::new();
    let out = sink(&mut scheme, b"out?buf_sz=4");
    let mut ids = Vec::new();
    for _ in 0..3 {
        ids.push(attach(&mut scheme, b"out"));
    }
    ids.sort();
    let mut outbox = Vec::new();
    assert_eq!(scheme.fsync(out, &mut outbox), Ok(0));
    let expected: Vec<Notification> = ids
        .iter()
        .map(|&id| Notification { readiness: Readiness::Write, target: id, length: 4 })
        .collect();
    assert_eq!(outbox, expected);
}

#[test]
fn source_sync_announces_fresh_data() {
    let mut scheme = AudioScheme::new();
    let src = source(&mut scheme, b"in?buf_sz=3");
    scheme.write(src, &[1, 2, 3]).unwrap();
    let c = attach(&mut scheme, b"in");
    let mut outbox = vec![Notification { readiness: Readiness::Write, target: 1, length: 0 }];
    assert_eq!(scheme.fsync(src, &mut outbox), Ok(0));
    assert_eq!(
        outbox,
        vec![
            Notification { readiness: Readiness::Write, target: 1, length: 0 },
            Notification { readiness: Readiness::Read, target: c, length: 3 },
        ]
    );
    assert_eq!(samples(&scheme, src), vec![1, 2, 3]);
}

#[test]
fn sync_of_unknown_id_changes_nothing() {
    let mut scheme = AudioScheme::new();
    let out = sink(&mut scheme, b"out?buf_sz=2");
    let a = attach(&mut scheme, b"out");
    scheme.write(out, &[9, 9]).unwrap();
    scheme.write(a, &[4, 6]).unwrap();
    let mut unknown = 0;
    while unknown == out || unknown == a {
        unknown += 1;
    }
    let mut outbox = Vec::new();
    assert_eq!(scheme.fsync(unknown, &mut outbox), Err(SchemeError::Ebadf));
    assert!(outbox.is_empty());
    assert_eq!(samples(&scheme, out), vec![9, 9]);
    assert_eq!(samples(&scheme, a), vec![4, 6]);
}

#[test]
fn connections_cannot_be_synced() {
    let mut scheme = AudioScheme::new();
    let out = sink(&mut scheme, b"out?buf_sz=2");
    let a = attach(&mut scheme, b"out");
    scheme.write(out, &[9, 9]).unwrap();
    scheme.write(a, &[4, 6]).unwrap();
    let mut outbox = Vec::new();
    assert_eq!(scheme.fsync(a, &mut outbox), Err(SchemeError::Ebadf));
    assert!(outbox.is_empty());
    assert_eq!(samples(&scheme, out), vec![9, 9]);
    assert_eq!(samples(&scheme, a), vec![4, 6]);
}

#[test]
fn closing_an_endpoint_ends_every_stream() {
    let mut scheme = AudioScheme::new();
    let out = sink(&mut scheme, b"out?buf_sz=2");
    let other = sink(&mut scheme, b"other?buf_sz=2");
    let mut ids = vec![attach(&mut scheme, b"out"), attach(&mut scheme, b"out")];
    let stays = attach(&mut scheme, b"other");
    ids.sort();
    let mut outbox = Vec::new();
    assert_eq!(scheme.close(out, &mut outbox), Ok(0));
    assert_eq!(
        outbox,
        vec![
            Notification { readiness: Readiness::Write, target: ids[0], length: 0 },
            Notification { readiness: Readiness::Write, target: ids[1], length: 0 },
        ]
    );
    assert_eq!(scheme.lookup(b"out"), None);
    assert_eq!(scheme.open(b"out", 0, 0, 0), Err(SchemeError::Enoent));
    assert_eq!(scheme.fevent(out, 0), Err(SchemeError::Ebadf));
    assert_eq!(scheme.fsync(out, &mut outbox), Err(SchemeError::Ebadf));
    assert_eq!(scheme.fmap(out, 0, 8), Err(SchemeError::Ebadf));
    for id in ids {
        assert_eq!(scheme.fevent(id, 0), Err(SchemeError::Ebadf));
        assert_eq!(scheme.close(id, &mut outbox), Err(SchemeError::Ebadf));
    }
    assert_eq!(outbox.len(), 2);
    assert_eq!(scheme.fevent(other, 0), Ok(other));
    assert_eq!(scheme.fevent(stays, 0), Ok(stays));
    assert_eq!(scheme.attached(other).unwrap(), &[stays][..]);
}

#[test]
fn closing_twice_is_ebadf() {
    let mut scheme = AudioScheme::new();
    let out = sink(&mut scheme, b"out?buf_sz=2");
    let mut outbox = Vec::new();
    assert_eq!(scheme.close(out, &mut outbox), Ok(0));
    assert_eq!(scheme.close(out, &mut outbox), Err(SchemeError::Ebadf));
    assert!(outbox.is_empty());
}

#[test]
fn closing_a_connection_leaves_its_siblings() {
    let mut scheme = AudioScheme::new();
    let out = sink(&mut scheme, b"out?buf_sz=2");
    let a = attach(&mut scheme, b"out");
    let b = attach(&mut scheme, b"out");
    let c = attach(&mut scheme, b"out");
    scheme.write(a, &[10, 20]).unwrap();
    scheme.write(b, &[30, 40]).unwrap();
    scheme.write(c, &[0, 1]).unwrap();
    let mut outbox = Vec::new();
    scheme.fsync(out, &mut outbox).unwrap();
    let before = samples(&scheme, out);
    assert_eq!(before, vec![20, 30]);
    outbox.clear();
    assert_eq!(scheme.close(c, &mut outbox), Ok(0));
    assert!(outbox.is_empty());
    assert_eq!(scheme.fevent(c, 0), Err(SchemeError::Ebadf));
    assert_eq!(samples(&scheme, a), vec![10, 20]);
    assert_eq!(samples(&scheme, b), vec![30, 40]);
    let mut left = vec![a, b];
    left.sort();
    assert_eq!(scheme.attached(out).unwrap(), &left[..]);
    assert_eq!(scheme.lookup(b"out"), Some(out));
    scheme.fsync(out, &mut outbox).unwrap();
    assert_eq!(samples(&scheme, out), before);
    assert_eq!(outbox.len(), 2);
}

#[test]
fn closing_an_unrelated_connection_keeps_the_mixdown() {
    let mut scheme = AudioScheme::new();
    let out = sink(&mut scheme, b"out?buf_sz=2");
    let other = sink(&mut scheme, b"other?buf_sz=2");
    let a = attach(&mut scheme, b"out");
    let b = attach(&mut scheme, b"out");
    let unrelated = attach(&mut scheme, b"other");
    scheme.write(a, &[100, -7]).unwrap();
    scheme.write(b, &[3, 9]).unwrap();
    scheme.write(unrelated, &[1000, 1000]).unwrap();
    let mut outbox = Vec::new();
    scheme.fsync(out, &mut outbox).unwrap();
    let before = samples(&scheme, out);
    assert_eq!(before, vec![51, 0]);
    scheme.close(unrelated, &mut outbox).unwrap();
    scheme.fsync(out, &mut outbox).unwrap();
    assert_eq!(samples(&scheme, out), before);
    scheme.fsync(other, &mut outbox).unwrap();
    assert_eq!(samples(&scheme, other), vec![0, 0]);
}

#[test]
fn a_name_created_again_leads_to_the_new_endpoint() {
    let mut scheme = AudioScheme::new();
    let first = sink(&mut scheme, b"out?buf_sz=2");
    let c = attach(&mut scheme, b"out");
    let second = sink(&mut scheme, b"out?buf_sz=3");
    assert_ne!(first, second);
    assert_eq!(scheme.lookup(b"out"), Some(second));
    assert_eq!(scheme.fevent(first, 0), Ok(first));
    assert_eq!(scheme.fevent(c, 0), Ok(c));
    assert_eq!(scheme.target(c), Some(first));
    assert_eq!(scheme.attached(first).unwrap(), &[c][..]);
    let d = attach(&mut scheme, b"out");
    assert_eq!(scheme.target(d), Some(second));
    assert_eq!(scheme.buffer(d).unwrap().len(), 3);
    let mut outbox = Vec::new();
    assert_eq!(scheme.close(first, &mut outbox), Ok(0));
    assert_eq!(outbox, vec![Notification { readiness: Readiness::Write, target: c, length: 0 }]);
    assert_eq!(scheme.lookup(b"out"), None);
    assert_eq!(scheme.fevent(second, 0), Ok(second));
    assert_eq!(scheme.fevent(d, 0), Ok(d));
}

#[test]
fn a_closed_id_may_come_back_only_after_it_was_closed() {
    let mut scheme = AudioScheme::new();
    let out = sink(&mut scheme, b"out?buf_sz=1");
    let mut outbox = Vec::new();
    let mut live = vec![out];
    for round in 0..100 {
        let c = attach(&mut scheme, b"out");
        assert!(!live.contains(&c));
        live.push(c);
        if round % 3 == 0 {
            let gone = live.remove(1);
            assert_eq!(scheme.close(gone, &mut outbox), Ok(0));
        }
    }
    let mut listed = live[1..].to_vec();
    listed.sort();
    assert_eq!(scheme.attached(out).unwrap(), &listed[..]);
}
