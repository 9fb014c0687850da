use quill::ecs::type_layout::{IntoTypeLayout, TypeLayout};
use quill::ecs::{Fetch, FetchRead, FetchWrite, Query, QueryAccess, RegisterSystem};
use quill::guest::{Buffer, CallError, Plugin, PluginBuilder, INITIAL_CAPACITY};
use quill::layouts::Layouts;
use quill::query::{compile, Column};
use quill::rpc::parse_name;

fn read_layout(access: &QueryAccess) -> &TypeLayout {
    match access {
        QueryAccess::Read(layout) => layout,
        _ => panic!("not a read"),
    }
}

fn write_layout(access: &QueryAccess) -> &TypeLayout {
    match access {
        QueryAccess::Write(layout) => layout,
        _ => panic!("not a write"),
    }
}

#[test]
fn guest_buffer_starts_empty() {
    assert_eq!(Buffer::new().as_slice(), &[] as &[u8]);
    assert_eq!(Buffer::with_capacity(16).as_slice(), &[] as &[u8]);
    assert_eq!(Buffer::from_vec(vec![1, 2]).as_slice(), &[1, 2]);
    assert_eq!(Buffer::from(vec![3, 4, 5]).as_slice(), &[3, 4, 5]);
    assert_eq!(Buffer::from(vec![6]).into_vec(), vec![6]);
    assert_eq!(INITIAL_CAPACITY, 100_000);
}

#[test]
fn guest_buffer_extends_and_clears() {
    let mut buffer = Buffer::new();
    buffer.extend_from_slice(&[1, 2, 3]);
    buffer.reserve(100);
    buffer.extend_from_slice(&[4]);
    assert_eq!(buffer.as_slice(), &[1, 2, 3, 4]);
    buffer.clear();
    buffer.clear();
    assert_eq!(buffer.as_slice(), &[] as &[u8]);
    buffer.extend_from_slice(&[9]);
    assert_eq!(buffer.as_slice(), &[9]);
}

#[test]
fn guest_buffer_writes_report_the_bytes_written() {
    let mut buffer = Buffer::new();
    assert_eq!(buffer.write(&[1, 2, 3]), 3);
    assert_eq!(buffer.write(&[]), 0);
    buffer.write_all(&[4, 5]);
    buffer.flush();
    assert_eq!(buffer.write_vectored(&vec![vec![6], vec![], vec![7, 8]]), Some(3));
    assert_eq!(buffer.write_vectored(&vec![]), Some(0));
    assert_eq!(buffer.as_slice(), &[1, 2, 3, 4, 5, 6, 7, 8]);
}

#[test]
fn builder_counts_the_rpcs() {
    let builder = PluginBuilder::new("hello world");
    assert_eq!(builder.name(), "hello world");
    assert_eq!(builder.rpcs(), 0);
    let builder = builder.add_rpc().add_rpc();
    assert_eq!(builder.rpcs(), 2);
    assert_eq!(builder.name(), "hello world");
    let mut plugin = builder.init();
    let buffer = plugin.begin_call("x", &[]).unwrap();
    assert_eq!(buffer.as_slice(), &[1, 0, 0, 0, 0, 0, 0, 0, b'x']);
}

#[test]
fn call_frames_the_name_and_the_arguments() {
    let mut plugin: Plugin = PluginBuilder::new("guest").init();
    let args = bincode::serialize(&(3u32, true)).unwrap();
    let buffer = plugin.begin_call("world_query", &args).unwrap();
    let mut expected = bincode::serialize("world_query").unwrap();
    expected.extend_from_slice(&args);
    assert_eq!(buffer.as_slice(), &expected[..]);
    assert_eq!(parse_name(buffer.as_slice()), Ok(("world_query".to_owned(), 19)));
}

#[test]
fn second_call_before_the_first_finished_has_no_buffer() {
    let mut plugin = PluginBuilder::new("guest").init();
    let buffer = plugin.begin_call("first", &[1]).unwrap();
    assert_eq!(plugin.begin_call("second", &[2]).err(), Some(CallError::BufferUnavailable));
    assert_eq!(plugin.begin_call("third", &[3]).err(), Some(CallError::BufferUnavailable));
    assert_eq!(plugin.finish_call(buffer).len(), 8 + 5 + 1);
    let again = plugin.begin_call("second", &[2]).unwrap();
    assert_eq!(again.as_slice(), &[6, 0, 0, 0, 0, 0, 0, 0, b's', b'e', b'c', b'o', b'n', b'd', 2]);
}

#[test]
fn call_rpc_hands_the_frame_to_the_host_and_the_reply_back() {
    let mut plugin = PluginBuilder::new("guest").init();
    let reply = plugin.call_rpc("echo", &[1, 2, 3], |mut buffer| {
        let (name, args_at) = parse_name(buffer.as_slice()).unwrap();
        assert_eq!(name, "echo");
        let args = buffer.as_slice()[args_at..].to_vec();
        buffer.clear();
        buffer.extend_from_slice(&args);
        buffer.extend_from_slice(&[4]);
        buffer
    });
    assert_eq!(reply, Ok(vec![1, 2, 3, 4]));
    let again = plugin.call_rpc("noop", &[], |buffer| buffer);
    assert_eq!(again, Ok(vec![4, 0, 0, 0, 0, 0, 0, 0, b'n', b'o', b'o', b'p']));
}

#[test]
fn call_rpc_without_a_buffer_fails_and_calls_nothing() {
    let mut plugin = PluginBuilder::new("guest").init();
    let lent = plugin.begin_call("first", &[]).unwrap();
    let mut called = false;
    let refused = plugin.call_rpc("second", &[], |buffer| {
        called = true;
        buffer
    });
    assert_eq!(refused, Err(CallError::BufferUnavailable));
    assert!(!called);
    plugin.finish_call(lent);
    assert!(plugin.call_rpc("second", &[], |buffer| buffer).is_ok());
}

#[test]
fn finish_call_hands_out_the_reply() {
    let mut plugin = PluginBuilder::new("guest").init();
    let mut buffer = plugin.begin_call("echo", &[]).unwrap();
    buffer.clear();
    buffer.extend_from_slice(&[7, 0, 0, 0]);
    assert_eq!(plugin.finish_call(buffer), vec![7, 0, 0, 0]);
}

#[test]
fn fetch_of_a_reference_reads_or_writes() {
    let read = <FetchRead<u32> as Fetch>::access();
    assert_eq!(read_layout(&read), &<u32 as IntoTypeLayout>::layout());
    let write = <FetchWrite<u64> as Fetch>::access();
    assert_eq!(write_layout(&write), &<u64 as IntoTypeLayout>::layout());
}

#[test]
fn fetch_of_a_tuple_is_the_union_of_its_parts() {
    let access = <(&u32, &mut u64, &bool, &u32) as Fetch>::access();
    match &access {
        QueryAccess::Union(parts) => {
            assert_eq!(parts.len(), 4);
            assert_eq!(read_layout(&parts[0]), &TypeLayout::unit("u32".to_owned()));
            assert_eq!(write_layout(&parts[1]), &TypeLayout::unit("u64".to_owned()));
            assert_eq!(read_layout(&parts[2]), &TypeLayout::unit("bool".to_owned()));
            assert_eq!(read_layout(&parts[3]), &TypeLayout::unit("u32".to_owned()));
        }
        _ => panic!("a tuple fetches a union"),
    }
    let mut layouts = Layouts::new();
    let plan = compile(&access, &mut layouts).unwrap();
    assert_eq!(
        plan.immutable,
        vec![Column { id: 3, required: true }, Column { id: 13, required: true }]
    );
    assert_eq!(plan.mutable, vec![Column { id: 4, required: true }]);
    match <(&u8, &mut i8) as Fetch>::access() {
        QueryAccess::Union(parts) => assert_eq!(parts.len(), 2),
        _ => panic!("a pair fetches a union"),
    }
    match <(&u8, &mut i8, &char) as Fetch>::access() {
        QueryAccess::Union(parts) => assert_eq!(parts.len(), 3),
        _ => panic!("a triple fetches a union"),
    }
    match <(&mut i16,) as Fetch>::access() {
        QueryAccess::Union(parts) => assert_eq!(parts.len(), 1),
        _ => panic!("a single fetches a union"),
    }
    match <() as Fetch>::access() {
        QueryAccess::Union(parts) => assert!(parts.is_empty()),
        _ => panic!("the empty tuple fetches a union"),
    }
}

#[test]
fn query_cursor_walks_and_rewrites_the_rows() {
    let mut health = [10u32, 20, 30];
    {
        let [a, b, c] = &mut health;
        let mut query: Query<&mut u32> = Query::new(vec![a, b, c]);
        let mut cursor = query.iter_mut();
        let mut seen = 0;
        while let Some(row) = cursor.next_row() {
            **row += 100;
            seen += 1;
        }
        assert_eq!(seen, 3);
        assert!(cursor.next_row().is_none());
    }
    assert_eq!(health, [110, 120, 130]);
}

#[test]
fn query_rows_are_decoded_from_their_bytes() {
    let values = [7u32, 8, 9];
    let decode = |row: &Vec<u8>| match row.first() {
        Some(at) => values.get(*at as usize),
        None => None,
    };
    let mut query: Query<&u32> = Query::from_data(vec![vec![2], vec![0], vec![1, 9]], decode)
        .ok()
        .unwrap();
    let mut cursor = query.iter_mut();
    let mut seen: Vec<u32> = Vec::new();
    while let Some(row) = cursor.next_row() {
        seen.push(**row);
    }
    assert_eq!(seen, vec![9, 7, 8]);
    let failed: Result<Query<&u32>, usize> =
        Query::from_data(vec![vec![0], vec![], vec![5]], decode);
    assert_eq!(failed.err(), Some(1));
    let failed: Result<Query<&u32>, usize> = Query::from_data(vec![vec![0], vec![5]], decode);
    assert_eq!(failed.err(), Some(1));
    let empty: Result<Query<&u32>, usize> = Query::from_data(vec![], decode);
    assert!(empty.is_ok());
}

#[test]
fn register_system_lists_queries_and_resources() {
    let system = RegisterSystem {
        queries: vec![QueryAccess::read::<u32>(), QueryAccess::Empty],
        resources: vec![TypeLayout::unit("Time".to_owned())],
    };
    assert_eq!(system.queries.len(), 2);
    assert_eq!(system.resources, vec![TypeLayout::unit("Time".to_owned())]);
}
