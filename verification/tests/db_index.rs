use librho::ast::{AnnProc, BundleType, Case, Id, LetBinding, Name, Names, Proc, SendType, SourcePos, SourceSpan, Var};
use librho::db::SemanticDb;

fn span(line: usize, from: usize, to: usize) -> SourceSpan {
    SourceSpan { start: SourcePos { line, col: from }, end: SourcePos { line, col: to } }
}

fn ann(proc: Proc, from: usize, to: usize) -> AnnProc {
    AnnProc { proc, span: span(1, from, to) }
}

fn leak(p: AnnProc) -> &'static AnnProc {
    Box::leak(Box::new(p))
}

fn id(name: &str, col: usize) -> Id {
    Id { name: name.to_string(), pos: SourcePos { line: 1, col } }
}

#[test]
fn test_build_index_single_node() {
    let mut db = SemanticDb::new();
    let root = leak(ann(Proc::Nil, 1, 4));
    let root_pid = db.build_index(root);
    assert!(matches!(db.proc_at(root_pid).proc, Proc::Nil));
}

#[test]
fn test_build_index_multiple_nodes() {
    // Nil | ()
    let left = ann(Proc::Nil, 1, 4);
    let right = ann(Proc::Unit, 7, 9);
    let root = leak(ann(Proc::Par { left: Box::new(left), right: Box::new(right) }, 1, 9));

    let mut db = SemanticDb::new();
    let root_pid = db.build_index(root);

    let root_proc = &db.proc_at(root_pid).proc;
    assert!(matches!(root_proc, Proc::Par { .. }));
    if let Proc::Par { left: l, right: r } = root_proc {
        assert!(matches!(l.proc, Proc::Nil));
        assert!(matches!(r.proc, Proc::Unit));

        let left_pid = db.lookup(l).unwrap();
        let right_pid = db.lookup(r).unwrap();

        assert_eq!(*db.proc_at(left_pid), ann(Proc::Nil, 1, 4));
        assert_eq!(*db.proc_at(right_pid), ann(Proc::Unit, 7, 9));
    }
}

#[test]
fn test_build_index_nested_nodes() {
    // if (true) chan!(Nil) else ()
    let condition = ann(Proc::BoolLiteral(true), 5, 10);
    let send = ann(
        Proc::Send {
            channel: Name::NameVar(Var::Id(id("chan", 11))),
            send_type: SendType::Single,
            inputs: vec![ann(Proc::Nil, 17, 20)],
        },
        11,
        21,
    );
    let if_false = ann(Proc::Unit, 27, 29);
    let root = leak(ann(
        Proc::IfThenElse {
            condition: Box::new(condition),
            if_true: Box::new(send),
            if_false: Some(Box::new(if_false)),
        },
        1,
        39,
    ));

    let mut db = SemanticDb::new();
    let root_pid = db.build_index(root);

    // 0 -> IfThenElse, 1 -> condition, 2 -> send, 3 -> Nil, 4 -> ()
    assert_eq!(db.pids().len(), 5);

    let root_proc = &db.proc_at(root_pid).proc;
    assert!(matches!(root_proc, Proc::IfThenElse { .. }));
    if let Proc::IfThenElse { condition: c, if_true: t, if_false: Some(f) } = root_proc {
        assert!(matches!(c.proc, Proc::BoolLiteral(true)));
        assert!(matches!(f.proc, Proc::Unit));

        let condition_pid = db.lookup(c).unwrap();
        let if_true_pid = db.lookup(t).unwrap();
        let if_false_pid = db.lookup(f).unwrap();

        assert_eq!(*db.proc_at(condition_pid), ann(Proc::BoolLiteral(true), 5, 10));
        assert_eq!(db.proc_at(if_true_pid).span, span(1, 11, 21));
        assert_eq!(*db.proc_at(if_false_pid), ann(Proc::Unit, 27, 29));

        assert!(matches!(t.proc, Proc::Send { .. }));
        if let Proc::Send { inputs, .. } = &t.proc {
            let input_pid = db.lookup(&inputs[0]).unwrap();
            assert_eq!(db.proc_at(input_pid).proc, Proc::Nil);
        }
    }
}

#[test]
fn test_tricky_duplicate_literals() {
    // true | if (true) true else true
    let root = leak(ann(
        Proc::Par {
            left: Box::new(ann(Proc::BoolLiteral(true), 1, 5)),
            right: Box::new(ann(
                Proc::IfThenElse {
                    condition: Box::new(ann(Proc::BoolLiteral(true), 12, 16)),
                    if_true: Box::new(ann(Proc::BoolLiteral(true), 18, 22)),
                    if_false: Some(Box::new(ann(Proc::BoolLiteral(true), 28, 32))),
                },
                8,
                32,
            )),
        },
        1,
        32,
    ));
    let mut db = SemanticDb::new();
    db.build_index(root);

    let mut pids: Vec<_> = db.pids();
    assert_eq!(pids.len(), 6);

    pids.sort_by_key(|p| p.0);
    pids.dedup();
    assert_eq!(pids.len(), 6, "All PIDs should be unique");

    for pid in pids {
        let proc_fwd = db.proc_at(pid);
        let proc_back = db.lookup(proc_fwd).unwrap();
        assert_eq!(pid, proc_back, "Forward and reverse lookup must agree");
    }
}

#[test]
fn iterates_complex_nested_structure_correctly() {
    // let x = 42 in bundle { match x { 42 => true | 42  _ => "hello" } }
    let cases = vec![
        Case {
            pattern: ann(Proc::LongLiteral(42), 15, 17),
            proc: ann(
                Proc::Par {
                    left: Box::new(ann(Proc::BoolLiteral(true), 21, 25)),
                    right: Box::new(ann(Proc::LongLiteral(42), 28, 30)),
                },
                21,
                30,
            ),
        },
        Case { pattern: ann(Proc::ProcVar(Var::Wildcard), 32, 33), proc: ann(Proc::StringLiteral("hello".to_string()), 38, 45) },
    ];
    let matcher = ann(
        Proc::Match { expression: Box::new(ann(Proc::ProcVar(Var::Id(id("x", 8)))
            , 8, 9)), cases },
        2,
        47,
    );
    let body = ann(Proc::Bundle { bundle_type: BundleType::BundleReadWrite, proc: Box::new(matcher) }, 1, 48);
    let root = leak(ann(
        Proc::Let {
            bindings: vec![LetBinding {
                lhs: Names { names: vec![Name::NameVar(Var::Id(id("x", 5)))], remainder: None },
                rhs: vec![ann(Proc::LongLiteral(42), 9, 11)],
            }],
            body: Box::new(body),
            concurrent: false,
        },
        1,
        48,
    ));

    let mut db = SemanticDb::new();
    db.build_index(root);

    let all = db.iter();
    assert_eq!(all.len(), 11);

    let (_, first_proc) = all[0];
    assert!(matches!(first_proc.proc, Proc::Let { .. }));

    let (_, last_proc) = all[all.len() - 1];
    assert!(matches!(last_proc.proc, Proc::LongLiteral(42)));
}
