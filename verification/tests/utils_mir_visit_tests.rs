//! Tests for mir_visit and MirVisitor.

use rustowl::models::{FnLocal, Function, Loc, MirBasicBlock, MirDecl, MirStatement, MirTerminator,
    Range};
use rustowl::utils::{MirVisitor, mir_visit};

struct TraceVisitor {
    calls: Vec<&'static str>,
}

impl TraceVisitor {
    fn new() -> Self {
        Self { calls: Vec::new() }
    }
}

impl MirVisitor for TraceVisitor {
    fn visit_func(&mut self, _func: &Function) {
        self.calls.push("func");
    }
    fn visit_decl(&mut self, _decl: &MirDecl) {
        self.calls.push("decl");
    }
    fn visit_stmt(&mut self, _stmt: &MirStatement) {
        self.calls.push("stmt");
    }
    fn visit_term(&mut self, _term: &MirTerminator) {
        self.calls.push("term");
    }
}

fn dummy_decl(id: u32) -> MirDecl {
    MirDecl::Other {
        local: FnLocal::new(id, 0),
        ty: "i32".to_string(),
        lives: Vec::new(),
        shared_borrow: Vec::new(),
        mutable_borrow: Vec::new(),
        drop: false,
        drop_range: Vec::new(),
        must_live_at: Vec::new(),
    }
}

fn dummy_stmt(at: u32) -> MirStatement {
    MirStatement::Other { range: Range::new(Loc(at), Loc(at + 1)).unwrap() }
}

fn dummy_term(at: u32) -> MirTerminator {
    MirTerminator::Other { range: Range::new(Loc(at), Loc(at + 1)).unwrap() }
}

#[test]
fn mir_visit_calls_all_hooks_in_order() {
    // A function with 2 decls and 2 basic blocks:
    //   the first with 2 statements and a terminator,
    //   the second with 1 statement and no terminator.
    let mut f = Function::new(0);
    f.decls.push(dummy_decl(0));
    f.decls.push(dummy_decl(1));
    f.basic_blocks.push(MirBasicBlock {
        statements: vec![dummy_stmt(0), dummy_stmt(1)],
        terminator: Some(dummy_term(0)),
    });
    f.basic_blocks.push(MirBasicBlock { statements: vec![dummy_stmt(2)], terminator: None });

    let mut v = TraceVisitor::new();
    mir_visit(&f, &mut v);

    assert!(matches!(v.calls.first(), Some(&"func")));
    let counts = v.calls.iter().fold((0, 0, 0, 0), |mut acc, &k| {
        match k {
            "func" => acc.0 += 1,
            "decl" => acc.1 += 1,
            "stmt" => acc.2 += 1,
            "term" => acc.3 += 1,
            _ => {}
        }
        acc
    });
    assert_eq!(counts, (1, 2, 3, 1));
}

#[test]
fn mir_visit_handles_empty_function() {
    let f = Function::new(0);
    let mut v = TraceVisitor::new();
    mir_visit(&f, &mut v);
    // Only the function itself should be visited
    assert_eq!(v.calls, vec!["func"]);
}
