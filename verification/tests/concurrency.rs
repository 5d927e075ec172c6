use syntecnia_serve::parallel::{
    chunk, control_to_error, parallel_builtin, plan_parallel_map, register_parallel_builtins, worker_count,
    Control, Fault, ParallelBuiltin, Pool, TaskSnapshot,
};
use syntecnia_serve::runtime::StreamSlots;
use syntecnia_serve::value::{NewValue, SynData, SynValue, TaskData};

fn list(items: Vec<SynValue>) -> SynValue {
    SynValue { data: SynData::List(items), shown: "[list]".to_string() }
}

fn numbers(n: i64) -> SynValue {
    list((0..n).map(SynValue::integer).collect())
}

fn builtin(name: &str) -> SynValue {
    SynValue { data: SynData::Builtin(name.to_string()), shown: format!("<builtin {}>", name) }
}

fn sizes(v: NewValue) -> Vec<usize> {
    match v {
        NewValue::List(parts) => parts
            .iter()
            .map(|p| match p {
                NewValue::List(l) => l.len(),
                _ => panic!("no list"),
            })
            .collect(),
        _ => panic!("no list"),
    }
}

#[test]
fn chunks_of_a_list() {
    assert_eq!(sizes(chunk(vec![numbers(7), SynValue::integer(3)]).unwrap()), vec![3, 3, 1]);
    assert_eq!(sizes(chunk(vec![numbers(6), SynValue::integer(3)]).unwrap()), vec![3, 3]);
    assert_eq!(sizes(chunk(vec![numbers(2), SynValue::integer(i64::MAX)]).unwrap()), vec![2]);
    assert!(sizes(chunk(vec![numbers(0), SynValue::integer(3)]).unwrap()).is_empty());
}

#[test]
fn chunks_make_up_the_list() {
    let parts = match chunk(vec![numbers(5), SynValue::integer(2)]).unwrap() {
        NewValue::List(parts) => parts,
        _ => panic!("no list"),
    };
    let mut shown: Vec<String> = Vec::new();
    for p in parts {
        if let NewValue::List(l) = p {
            for v in l {
                if let NewValue::Given(g) = v {
                    shown.push(g.shown);
                }
            }
        }
    }
    assert_eq!(shown, vec!["0", "1", "2", "3", "4"]);
}

#[test]
fn chunk_refusals() {
    let why = |args: Vec<SynValue>| match chunk(args) {
        Ok(_) => panic!("no refusal"),
        Err(e) => e,
    };
    assert_eq!(why(vec![]), "chunk: first argument must be a list");
    assert_eq!(why(vec![SynValue::integer(1)]), "chunk: first argument must be a list");
    assert_eq!(why(vec![numbers(1)]), "chunk: size must be a number");
    assert_eq!(why(vec![numbers(1), numbers(1)]), "chunk: size must be a number");
    assert_eq!(why(vec![numbers(1), SynValue::integer(0)]), "chunk size must be positive");
    assert_eq!(why(vec![numbers(1), SynValue::integer(-1)]), "chunk size must be positive");
}

#[test]
fn plans_of_parallel_map() {
    let p = plan_parallel_map(vec![builtin("len"), numbers(3)]).unwrap();
    assert!(matches!(p.task, TaskSnapshot::Builtin(n) if n == "len"));
    assert_eq!((p.items.len(), p.limit), (3, 64));
    let task = SynValue {
        data: SynData::Task(TaskData {
            name: "t".to_string(),
            parameters: vec!["x".to_string()],
            required_capabilities: vec![("net".to_string(), None)],
            body: 17,
        }),
        shown: "<task t>".to_string(),
    };
    let p = plan_parallel_map(vec![task, numbers(1), SynValue::integer(4)]).unwrap();
    match p.task {
        TaskSnapshot::User(t) => {
            assert_eq!((t.name.as_str(), t.body), ("t", 17));
            assert_eq!(t.parameters, vec!["x"]);
            assert_eq!(t.required_capabilities, vec![("net".to_string(), None)]);
        }
        TaskSnapshot::Builtin(_) => panic!("no task"),
    }
    assert_eq!(p.limit, 4);
    let p = plan_parallel_map(vec![builtin("len"), numbers(0), SynValue::integer(-4)]).unwrap();
    assert_eq!(p.limit, 64);
    let p = plan_parallel_map(vec![builtin("len"), numbers(0), numbers(0)]).unwrap();
    assert_eq!(p.limit, 64);
}

#[test]
fn refusals_of_parallel_map() {
    let why = |args: Vec<SynValue>| match plan_parallel_map(args) {
        Ok(_) => panic!("no refusal"),
        Err(e) => e,
    };
    assert_eq!(why(vec![]), "parallel_map: first argument must be a task");
    assert_eq!(why(vec![numbers(1), numbers(1)]), "parallel_map: first argument must be a task");
    assert_eq!(why(vec![builtin("len")]), "parallel_map: second argument must be a list");
    assert_eq!(why(vec![builtin("len"), builtin("len")]), "parallel_map: second argument must be a list");
}

#[test]
fn workers() {
    assert_eq!(worker_count(64, 3), 3);
    assert_eq!(worker_count(2, 3), 2);
    assert_eq!(worker_count(0, 3), 1);
    assert_eq!(worker_count(5, 0), 0);
}

#[test]
fn results_come_in_the_order_of_the_items() {
    let mut p: Pool<i32, String> = Pool::new(3);
    assert_eq!(p.claim(), Some(0));
    assert_eq!(p.claim(), Some(1));
    p.report(1, Ok(11));
    assert_eq!(p.claim(), Some(2));
    p.report(2, Ok(12));
    p.report(0, Ok(10));
    assert_eq!(p.claim(), None);
    assert_eq!(p.finish(), Ok(vec![Some(10), Some(11), Some(12)]));
}

#[test]
fn the_first_failing_item_decides() {
    let mut p: Pool<i32, String> = Pool::new(5);
    for i in 0..3 {
        assert_eq!(p.claim(), Some(i));
    }
    p.report(2, Err("two".to_string()));
    assert_eq!(p.claim(), None);
    p.report(0, Ok(0));
    p.report(1, Err("one".to_string()));
    assert_eq!(p.finish(), Err("one".to_string()));
}

#[test]
fn a_later_failure_does_not_replace_an_earlier_one() {
    let mut p: Pool<i32, String> = Pool::new(2);
    p.claim();
    p.claim();
    p.report(0, Err("zero".to_string()));
    p.report(1, Err("one".to_string()));
    assert_eq!(p.finish(), Err("zero".to_string()));
}

#[test]
fn unreported_items_leave_gaps() {
    let mut p: Pool<i32, String> = Pool::new(2);
    p.claim();
    p.claim();
    p.report(1, Ok(1));
    assert_eq!(p.finish(), Ok(vec![None, Some(1)]));
    let empty: Pool<i32, String> = Pool::new(0);
    assert_eq!(empty.finish(), Ok(Vec::new()));
}

#[test]
fn ends_without_a_value() {
    assert!(matches!(control_to_error(Control::Error(7)), Fault::Raised(7)));
    assert!(matches!(control_to_error(Control::<i32>::Give), Fault::Message("'give' used outside of a task")));
    assert!(matches!(control_to_error(Control::<i32>::Stop), Fault::Message("'stop' used outside of a loop")));
}

#[test]
fn parallel_builtins_are_registered() {
    let table = register_parallel_builtins();
    assert_eq!(table.len(), 2);
    assert_eq!((table[0].name, table[0].arity), ("chunk", 2));
    assert!(matches!(table[0].op, ParallelBuiltin::Chunk));
    assert_eq!((table[1].name, table[1].arity), ("parallel_map", -1));
    assert!(matches!(table[1].op, ParallelBuiltin::ParallelMap));
    assert!(matches!(parallel_builtin("chunk"), Some(ParallelBuiltin::Chunk)));
    assert!(matches!(parallel_builtin("parallel_map"), Some(ParallelBuiltin::ParallelMap)));
    assert!(parallel_builtin("chunks").is_none());
}

#[test]
fn streams_are_bounded() {
    let mut s = StreamSlots::new(2);
    assert!(s.try_acquire_stream());
    assert!(s.try_acquire_stream());
    assert!(!s.try_acquire_stream());
    s.release_stream();
    assert_eq!(s.active, 1);
    assert!(s.try_acquire_stream());
    let mut none = StreamSlots::new(0);
    assert!(!none.try_acquire_stream());
    none.release_stream();
    assert_eq!(none.active, 0);
}
