//! Tests of the `for`-comprehension checks.  Processes are written in Rholang
//! source and read by the small reader below, which knows the part of the
//! grammar these tests use.
use librho::ast::{
    AnnProc, Bind, BinaryExpOp, Case, Collection, Id, KeyValue, Name, NameDecl, Names, Proc, SendType,
    Source, SourcePos, SourceSpan, UnaryExpOp, Var,
};
use librho::db::SemanticDb;
use librho::resolve_proc::ResolverPass;
use librho::types::PID;

#[derive(Clone, Debug, PartialEq)]
enum Tok {
    Ident(String),
    Int(i64),
    Str(String),
    Uri(String),
    Sym(&'static str),
}

struct Reader {
    toks: Vec<(Tok, SourcePos, SourcePos)>,
    at: usize,
}

const SYMBOLS: [&str; 23] = [
    "<<-", "...", "<-", "<=", "=>", "\\/", "/\\", "(", ")", "[", "]", "{", "}", ",", ";", "&", "|",
    "!", "@", "*", "=", ":", "~",
];

fn tokenize(code: &str) -> Vec<(Tok, SourcePos, SourcePos)> {
    let chars: Vec<char> = code.chars().collect();
    let mut out = Vec::new();
    let (mut i, mut line, mut col) = (0usize, 1usize, 1usize);
    while i < chars.len() {
        let c = chars[i];
        if c == '\n' {
            i += 1;
            line += 1;
            col = 1;
            continue;
        }
        if c.is_whitespace() {
            i += 1;
            col += 1;
            continue;
        }
        if c == '/' && i + 1 < chars.len() && chars[i + 1] == '/' {
            while i < chars.len() && chars[i] != '\n' {
                i += 1;
            }
            continue;
        }
        let start = SourcePos { line, col };
        let mut len = 1;
        let tok = if c.is_alphabetic() || c == '_' {
            while i + len < chars.len() && (chars[i + len].is_alphanumeric() || chars[i + len] == '_') {
                len += 1;
            }
            Tok::Ident(chars[i..i + len].iter().collect())
        } else if c.is_ascii_digit() {
            while i + len < chars.len() && chars[i + len].is_ascii_digit() {
                len += 1;
            }
            Tok::Int(chars[i..i + len].iter().collect::<String>().parse().unwrap())
        } else if c == '"' || c == '`' {
            while chars[i + len] != c {
                len += 1;
            }
            len += 1;
            let text: String = chars[i + 1..i + len - 1].iter().collect();
            if c == '"' {
                Tok::Str(text)
            } else {
                Tok::Uri(text)
            }
        } else {
            let rest: String = chars[i..].iter().take(3).collect();
            let sym = SYMBOLS.iter().find(|s| rest.starts_with(**s)).expect("unknown symbol");
            len = sym.len();
            Tok::Sym(sym)
        };
        i += len;
        col += len;
        out.push((tok, start, SourcePos { line, col }));
    }
    out
}

fn ann(proc: Proc, start: SourcePos, end: SourcePos) -> AnnProc {
    AnnProc { proc, span: SourceSpan { start, end } }
}

impl Reader {
    fn peek(&self) -> Option<&Tok> {
        self.toks.get(self.at).map(|t| &t.0)
    }

    fn peek2(&self) -> Option<&Tok> {
        self.toks.get(self.at + 1).map(|t| &t.0)
    }

    fn is(&self, s: &str) -> bool {
        matches!(self.peek(), Some(Tok::Sym(x)) if *x == s) || matches!(self.peek(), Some(Tok::Ident(x)) if x == s)
    }

    fn start(&self) -> SourcePos {
        self.toks[self.at].1
    }

    fn last_end(&self) -> SourcePos {
        self.toks[self.at - 1].2
    }

    fn eat(&mut self, s: &str) {
        assert!(self.is(s), "expected {s} at {:?}", self.peek());
        self.at += 1;
    }

    fn ident(&mut self) -> Id {
        match self.toks[self.at].clone() {
            (Tok::Ident(name), pos, _) => {
                self.at += 1;
                Id { name, pos }
            },
            t => panic!("expected identifier, found {:?}", t),
        }
    }

    fn proc(&mut self) -> AnnProc {
        let start = self.start();
        let mut left = self.conj();
        while self.is("\\/") {
            self.eat("\\/");
            let right = self.conj();
            left = ann(
                Proc::BinaryExp { op: BinaryExpOp::Disjunction, left: Box::new(left), right: Box::new(right) },
                start,
                self.last_end(),
            );
        }
        left
    }

    fn conj(&mut self) -> AnnProc {
        let start = self.start();
        let mut left = self.par();
        while self.is("/\\") {
            self.eat("/\\");
            let right = self.par();
            left = ann(
                Proc::BinaryExp { op: BinaryExpOp::Conjunction, left: Box::new(left), right: Box::new(right) },
                start,
                self.last_end(),
            );
        }
        left
    }

    fn par(&mut self) -> AnnProc {
        let start = self.start();
        let mut left = self.term();
        while self.is("|") {
            self.eat("|");
            let right = self.term();
            left = ann(Proc::Par { left: Box::new(left), right: Box::new(right) }, start, self.last_end());
        }
        left
    }

    fn block(&mut self) -> AnnProc {
        self.eat("{");
        let p = self.proc();
        self.eat("}");
        p
    }

    fn term(&mut self) -> AnnProc {
        let start = self.start();
        if self.is("new") {
            self.eat("new");
            let mut decls = vec![];
            loop {
                let id = self.ident();
                let uri = if self.is("(") {
                    self.eat("(");
                    let u = match self.toks[self.at].0.clone() {
                        Tok::Uri(u) => u,
                        t => panic!("expected uri, found {:?}", t),
                    };
                    self.at += 1;
                    self.eat(")");
                    Some(u)
                } else {
                    None
                };
                decls.push(NameDecl { id, uri });
                if !self.is(",") {
                    break;
                }
                self.eat(",");
            }
            self.eat("in");
            let body = self.term();
            return ann(Proc::New { decls, proc: Box::new(body) }, start, self.last_end());
        }
        if self.is("for") {
            self.eat("for");
            self.eat("(");
            let mut receipts = vec![];
            loop {
                let mut group = vec![];
                loop {
                    group.push(self.bind());
                    if !self.is("&") {
                        break;
                    }
                    self.eat("&");
                }
                receipts.push(group);
                if !self.is(";") {
                    break;
                }
                self.eat(";");
            }
            self.eat(")");
            let body = self.block();
            return ann(Proc::ForComprehension { receipts, proc: Box::new(body) }, start, self.last_end());
        }
        if self.is("contract") {
            self.eat("contract");
            let name = self.name();
            self.eat("(");
            let mut names = vec![];
            while !self.is(")") {
                names.push(self.name());
                if self.is(",") {
                    self.eat(",");
                }
            }
            self.eat(")");
            self.eat("=");
            let body = self.block();
            return ann(
                Proc::Contract { name, formals: Names { names, remainder: None }, body: Box::new(body) },
                start,
                self.last_end(),
            );
        }
        if self.is("~") {
            self.eat("~");
            let arg = self.term();
            return ann(Proc::UnaryExp { op: UnaryExpOp::Negation, arg: Box::new(arg) }, start, self.last_end());
        }
        if self.is("match") {
            self.eat("match");
            let expression = self.proc();
            self.eat("{");
            let mut cases = vec![];
            while !self.is("}") {
                let pattern = self.proc();
                self.eat("=>");
                let proc = self.term();
                cases.push(Case { pattern, proc });
            }
            self.eat("}");
            return ann(Proc::Match { expression: Box::new(expression), cases }, start, self.last_end());
        }
        if self.is("{") && !self.is_map() {
            return self.block();
        }
        if self.is("@") || (matches!(self.peek(), Some(Tok::Ident(_))) && matches!(self.peek2(), Some(Tok::Sym("!")))) {
            let channel = self.name();
            self.eat("!");
            self.eat("(");
            let inputs = self.list_until(")");
            self.eat(")");
            return ann(Proc::Send { channel, send_type: SendType::Single, inputs }, start, self.last_end());
        }
        if self.is("*") {
            self.eat("*");
            let name = self.name();
            return ann(Proc::Eval { name }, start, self.last_end());
        }
        self.primary()
    }

    fn is_map(&self) -> bool {
        matches!(self.toks.get(self.at + 2).map(|t| &t.0), Some(Tok::Sym(":")))
    }

    fn list_until(&mut self, close: &str) -> Vec<AnnProc> {
        let mut items = vec![];
        while !self.is(close) && !self.is("...") {
            items.push(self.proc());
            if self.is(",") {
                self.eat(",");
            }
        }
        items
    }

    fn remainder(&mut self) -> Option<Var> {
        if self.is("...") {
            self.eat("...");
            Some(self.var())
        } else {
            None
        }
    }

    fn var(&mut self) -> Var {
        if self.is("_") {
            self.eat("_");
            Var::Wildcard
        } else {
            Var::Id(self.ident())
        }
    }

    fn primary(&mut self) -> AnnProc {
        let start = self.start();
        let (tok, _, end) = self.toks[self.at].clone();
        let proc = match tok {
            Tok::Int(n) => {
                self.at += 1;
                Proc::LongLiteral(n)
            },
            Tok::Str(s) => {
                self.at += 1;
                Proc::StringLiteral(s)
            },
            Tok::Ident(w) if w == "Nil" => {
                self.at += 1;
                Proc::Nil
            },
            Tok::Ident(w) if w == "true" || w == "false" => {
                self.at += 1;
                Proc::BoolLiteral(w == "true")
            },
            Tok::Ident(_) => Proc::ProcVar(self.var()),
            Tok::Sym("[") => {
                self.eat("[");
                let elements = self.list_until("]");
                let remainder = self.remainder();
                self.eat("]");
                Proc::Collection(Collection::List { elements, remainder })
            },
            Tok::Sym("(") => {
                self.eat("(");
                if self.is(")") {
                    self.eat(")");
                    Proc::Unit
                } else {
                    let first = self.proc();
                    if self.is(")") {
                        self.eat(")");
                        return first;
                    }
                    let mut elements = vec![first];
                    self.eat(",");
                    elements.extend(self.list_until(")"));
                    self.eat(")");
                    Proc::Collection(Collection::Tuple(elements))
                }
            },
            Tok::Sym("{") => {
                self.eat("{");
                let mut elements = vec![];
                while !self.is("}") {
                    let key = self.proc();
                    self.eat(":");
                    let value = self.proc();
                    elements.push(KeyValue { key, value });
                    if self.is(",") {
                        self.eat(",");
                    }
                }
                self.eat("}");
                Proc::Collection(Collection::MapOf { elements, remainder: None })
            },
            t => panic!("unexpected {:?}", t),
        };
        let _ = end;
        ann(proc, start, self.last_end())
    }

    fn name(&mut self) -> Name {
        if self.is("@") {
            self.eat("@");
            Name::Quote(Box::new(self.primary()))
        } else {
            Name::NameVar(self.var())
        }
    }

    fn bind(&mut self) -> Bind {
        let pos = self.start();
        let mut names = vec![self.name()];
        while self.is(",") {
            self.eat(",");
            names.push(self.name());
        }
        let lhs = Names { names, remainder: None };
        if self.is("<-") {
            self.eat("<-");
            Bind::Linear { lhs, rhs: Source::Simple { name: self.name() }, pos }
        } else if self.is("<=") {
            self.eat("<=");
            Bind::Repeated { lhs, rhs: self.name(), pos }
        } else {
            self.eat("<<-");
            Bind::Peek { lhs, rhs: self.name(), pos }
        }
    }
}

/// Reads the processes of `code`, separated at the top level by nothing but
/// `|`, as one process.
fn parse(code: &str) -> &'static AnnProc {
    let mut r = Reader { toks: tokenize(code), at: 0 };
    let p = r.proc();
    assert!(r.at == r.toks.len(), "trailing input");
    Box::leak(Box::new(p))
}

/// Indexes the process of `code` and resolves it.
fn resolved(code: &str) -> (SemanticDb<'static>, PID) {
    let root = parse(code);
    let mut db = SemanticDb::new();
    let pid = db.build_index(root);
    ResolverPass::new(pid).run(&mut db);
    (db, pid)
}

/// Indexes and resolves `code`, and finds its first `for`.
fn setup_db(code: &str) -> (SemanticDb<'static>, PID) {
    let (db, _) = resolved(code);
    let pid = db.find_proc(|p| matches!(p.proc, Proc::ForComprehension { .. })).map(|(pid, _)| pid).expect("No for-comprehension found");
    (db, pid)
}

fn get_receipts<'a>(db: &SemanticDb<'a>, pid: PID) -> &'a Vec<Vec<Bind>> {
    match &db.get(pid).expect("PID not found").proc {
        Proc::ForComprehension { receipts, .. } => receipts,
        _ => panic!("Not a for-comprehension"),
    }
}

#[test]
fn reader_reads_the_grammar_of_these_tests() {
    let p = parse(r#"new ch1, ch2(`rho:x`) in { for(@[x, y ...rest] <- ch1 & y <= @"c"; _ <<- @Nil) { @x!(1) | z!((1, 2), {"k": v}) } }"#);
    match &p.proc {
        Proc::New { decls, proc } => {
            assert_eq!(decls.len(), 2);
            assert_eq!(decls[1].uri.as_deref(), Some("rho:x"));
            match &proc.proc {
                Proc::ForComprehension { receipts, proc } => {
                    assert_eq!(receipts.len(), 2);
                    assert_eq!(receipts[0].len(), 2);
                    assert!(matches!(proc.proc, Proc::Par { .. }));
                },
                _ => panic!("expected for"),
            }
        },
        _ => panic!("expected new"),
    }
}

// ---------------------------------------------------------------- consumption

use librho::consumption::{ConsumptionMode, ConsumptionTracker, ConsumptionValidator};
use librho::elab_errors::{ElaborationError, ValidationError};

fn peeked_channels(tracker: &ConsumptionTracker) -> Vec<String> {
    tracker
        .channel_usages()
        .iter()
        .filter(|(_, uses)| uses.iter().any(|(mode, _)| *mode == ConsumptionMode::Peek))
        .map(|(ch, _)| ch.clone())
        .collect()
}

fn consumed_channels(tracker: &ConsumptionTracker) -> Vec<String> {
    tracker
        .channel_usages()
        .iter()
        .filter(|(_, uses)| uses.iter().any(|(mode, _)| *mode != ConsumptionMode::Peek))
        .map(|(ch, _)| ch.clone())
        .collect()
}

fn consumption_result(code: &str) -> Result<(), ValidationError> {
    let (db, pid) = setup_db(code);
    let receipts = get_receipts(&db, pid);
    let validator = ConsumptionValidator::new(&db);
    validator.validate(pid, receipts)
}

#[test]
fn consumption_test_validator_creation() {
    let db = SemanticDb::new();
    let validator = ConsumptionValidator::new(&db);
    assert!(std::ptr::eq(validator.db, &db));
}

#[test]
fn test_simple_linear_consumption() {
    let result = consumption_result(r#"new ch in { for(@x <- ch) { Nil } }"#);
    assert!(result.is_ok(), "Simple linear consumption should validate: {:?}", result);
}

#[test]
fn test_peek_consumption() {
    let result = consumption_result(r#"new ch in { for(@x <<- ch) { Nil } }"#);
    assert!(result.is_ok(), "Peek consumption should validate: {:?}", result);
}

#[test]
fn test_repeated_consumption() {
    let result = consumption_result(r#"new ch in { for(@x <= ch) { Nil } }"#);
    assert!(result.is_ok(), "Repeated consumption should validate: {:?}", result);
}

#[test]
fn test_mixed_consumption_modes() {
    let result = consumption_result(r#"new ch1, ch2, ch3 in { for(@x <- ch1; @y <= ch2; @z <<- ch3) { Nil } }"#);
    assert!(result.is_ok(), "Mixed consumption modes should validate: {:?}", result);
}

#[test]
fn consumption_test_sequential_receipts() {
    let result = consumption_result(r#"new ch1, ch2 in { for(@a <- ch1; @b <- ch2) { Nil } }"#);
    assert!(result.is_ok(), "Sequential receipts should validate: {:?}", result);
}

#[test]
fn test_parallel_bindings() {
    let result = consumption_result(r#"new ch1, ch2, ch3 in { for(@a <- ch1 & @b <- ch2 & @c <= ch3) { Nil } }"#);
    assert!(result.is_ok(), "Parallel bindings should validate: {:?}", result);
}

#[test]
fn test_verify_channel_exists() {
    let result = consumption_result(r#"new ch in { for(@x <- ch) { Nil } }"#);
    assert!(result.is_ok(), "Existing channel should validate");
}

#[test]
fn consumption_test_wildcard_channel() {
    let result = consumption_result(r#"for(@x <- _) { Nil }"#);
    assert!(result.is_ok(), "Wildcard channel should validate: {:?}", result);
}

#[test]
fn test_quoted_process_channel() {
    let result = consumption_result(r#"for(@x <- @Nil) { Nil }"#);
    assert!(result.is_ok(), "Quoted process channel should validate: {:?}", result);
}

#[test]
fn test_linear_consumption_single_use() {
    let result = consumption_result(r#"new ch in { for(@x <- ch) { @x!(1) } }"#);
    assert!(result.is_ok(), "Linear consumption with single use should validate: {:?}", result);
}

#[test]
fn test_linear_consumption_multiple_uses_error() {
    let result = consumption_result(r#"new ch in { for(@x <- ch; @y <- ch) { Nil } }"#);
    assert!(result.is_err(), "Linear consumption with multiple uses should fail");
    if let Err(ValidationError::InvalidPatternStructure { reason, .. }) = result {
        assert!(reason.contains("consumed linearly multiple times"), "Error should mention multiple linear consumptions: {}", reason);
    } else {
        panic!("Expected InvalidPatternStructure error");
    }
}

#[test]
fn test_repeated_consumption_multiple_uses() {
    let result = consumption_result(r#"new ch in { for(@x <= ch; @y <= ch) { Nil } }"#);
    assert!(result.is_ok(), "Repeated consumption with multiple uses should validate: {:?}", result);
}

#[test]
fn test_peek_consumption_non_consuming() {
    let result = consumption_result(r#"new ch in { for(@x <<- ch; @y <<- ch) { Nil } }"#);
    assert!(result.is_ok(), "Peek consumption (non-consuming) should allow multiple reads: {:?}", result);
}

#[test]
fn test_conflicting_modes_linear_and_repeated() {
    let result = consumption_result(r#"new ch in { for(@x <- ch; @y <= ch) { Nil } }"#);
    assert!(result.is_err(), "Conflicting consumption modes should fail");
    if let Err(ValidationError::InvalidPatternStructure { reason, .. }) = result {
        assert!(reason.contains("conflicting consumption modes"), "Error should mention conflicting modes: {}", reason);
    } else {
        panic!("Expected InvalidPatternStructure error");
    }
}

#[test]
fn test_peek_with_linear_allowed() {
    let result = consumption_result(r#"new ch in { for(@x <<- ch; @y <- ch) { Nil } }"#);
    assert!(result.is_ok(), "Peek with linear consumption should validate (peek doesn't consume): {:?}", result);
}

#[test]
fn test_peek_with_repeated_allowed() {
    let result = consumption_result(r#"new ch in { for(@x <<- ch; @y <= ch) { Nil } }"#);
    assert!(result.is_ok(), "Peek with repeated consumption should validate: {:?}", result);
}

#[test]
fn test_different_channels_different_modes() {
    let result = consumption_result(r#"new ch1, ch2, ch3 in { for(@x <- ch1; @y <= ch2; @z <<- ch3) { Nil } }"#);
    assert!(result.is_ok(), "Different channels with different modes should validate: {:?}", result);
}

#[test]
fn test_parallel_bindings_linear_same_channel() {
    let result = consumption_result(r#"new ch in { for(@x <- ch & @y <- ch) { Nil } }"#);
    assert!(result.is_err(), "Parallel bindings on same channel with linear consumption should fail");
}

#[test]
fn test_consumption_tracker_records_usages() {
    let (db, pid) = setup_db(r#"new ch in { for(@x <- ch) { Nil } }"#);
    let receipts = get_receipts(&db, pid);
    let validator = ConsumptionValidator::new(&db);
    let tracker = validator.track_consumption_patterns(receipts);
    let consumed = consumed_channels(&tracker);
    assert!(!consumed.is_empty(), "Should have consumed channels");
}

#[test]
fn test_consumption_tracker_peek_vs_consume() {
    let (db, pid) = setup_db(r#"new ch1, ch2 in { for(@x <<- ch1; @y <- ch2) { Nil } }"#);
    let receipts = get_receipts(&db, pid);
    let validator = ConsumptionValidator::new(&db);
    let tracker = validator.track_consumption_patterns(receipts);
    let peeked = peeked_channels(&tracker);
    let consumed = consumed_channels(&tracker);
    assert_eq!(peeked.len(), 1, "Should have one peeked channel");
    assert_eq!(consumed.len(), 1, "Should have one consumed channel");
}

#[test]
fn test_reentrancy_detection_logic() {
    let (db, pid) = setup_db(r#"new ch in { for(@x <- ch) { Nil } }"#);
    let receipts = get_receipts(&db, pid);
    let validator = ConsumptionValidator::new(&db);
    let result = validator.detect_reentrancy_patterns(receipts);
    assert!(result.is_ok(), "Reentrancy detection should not fail validation: {:?}", result);
}

#[test]
fn test_verify_channel_exists_unbound() {
    let result = consumption_result(r#"for(@x <- unbound_ch) { Nil }"#);
    assert!(result.is_err(), "Unbound channel should fail validation");
    if let Err(ValidationError::UnboundVariable { .. }) = result {
    } else {
        panic!("Expected UnboundVariable error, got: {:?}", result);
    }
}

#[test]
fn test_complex_multi_receipt_validation() {
    let result = consumption_result(
        r#"new ch1, ch2, ch3, ch4 in {
            for(@a <- ch1; @b <= ch2; @c <<- ch3; @d <- ch4) {
                Nil
            }
        }"#,
    );
    assert!(result.is_ok(), "Complex multi-receipt pattern should validate: {:?}", result);
}

#[test]
fn test_linear_then_repeated_on_same_channel() {
    let result = consumption_result(r#"new ch in { for(@x <- ch; @y <= ch) { Nil } }"#);
    assert!(result.is_err(), "Linear then repeated on same channel should fail");
}

#[test]
fn test_three_linear_consumptions_same_channel() {
    let result = consumption_result(r#"new ch in { for(@x <- ch; @y <- ch; @z <- ch) { Nil } }"#);
    assert!(result.is_err(), "Three linear consumptions on same channel should fail");
    if let Err(ValidationError::InvalidPatternStructure { reason, .. }) = result {
        assert!(reason.contains("3 times"), "Error should mention 3 times: {}", reason);
    }
}

// ---------------------------------------------------------------------- joins

use librho::joins::JoinValidator;
use librho::types::ArrowKind;

fn join_result(code: &str) -> Result<(), ValidationError> {
    let (db, pid) = setup_db(code);
    let receipts = get_receipts(&db, pid);
    let validator = JoinValidator::new(&db);
    validator.validate(pid, receipts)
}

fn arrow_result(code: &str) -> Result<(), ValidationError> {
    let (db, pid) = setup_db(code);
    let receipts = get_receipts(&db, pid);
    let validator = JoinValidator::new(&db);
    validator.validate_arrow_type_homogeneity(receipts)
}

fn labels(found: &[ArrowKind]) -> Vec<&'static str> {
    found.iter().map(|k| k.label()).collect()
}

#[test]
fn joins_test_validator_creation() {
    let db = SemanticDb::new();
    let validator = JoinValidator::new(&db);
    assert!(std::ptr::eq(validator.db, &db));
}

#[test]
fn test_simple_join_no_deadlock() {
    let result = join_result(r#"new ch1, ch2 in { for(@x <- ch1; @y <- ch2) { Nil } }"#);
    assert!(result.is_ok(), "Simple join should validate: {:?}", result);
}

#[test]
fn test_parallel_bindings_atomicity() {
    let (db, pid) = setup_db(r#"new ch1, ch2, ch3 in { for(@x <- ch1 & @y <- ch2 & @z <- ch3) { Nil } }"#);
    let receipts = get_receipts(&db, pid);
    let validator = JoinValidator::new(&db);
    let result = validator.validate_join_atomicity(receipts);
    assert!(result.is_ok(), "Parallel bindings should validate atomically: {:?}", result);
}

#[test]
fn joins_test_sequential_receipts() {
    let result = join_result(r#"new ch1, ch2, ch3 in { for(@x <- ch1; @y <- ch2; @z <- ch3) { Nil } }"#);
    assert!(result.is_ok(), "Sequential receipts should validate: {:?}", result);
}

#[test]
fn test_mixed_parallel_and_sequential() {
    let result = join_result(r#"new ch1, ch2, ch3, ch4 in { for(@a <- ch1 & @b <- ch2; @c <- ch3 & @d <- ch4) { Nil } }"#);
    assert!(result.is_ok(), "Mixed parallel/sequential should validate: {:?}", result);
}

#[test]
fn test_channel_availability_check() {
    let (db, pid) = setup_db(r#"new ch in { for(@x <- ch) { Nil } }"#);
    let receipts = get_receipts(&db, pid);
    let validator = JoinValidator::new(&db);
    let result = validator.validate_channel_availability(pid, receipts);
    assert!(result.is_ok(), "Channel availability should validate: {:?}", result);
}

#[test]
fn test_unbound_channel_error() {
    let (db, pid) = setup_db(r#"for(@x <- unbound_ch) { Nil }"#);
    assert!(db.has_errors(), "Unbound channel should be detected by ResolverPass");
    let receipts = get_receipts(&db, pid);
    let validator = JoinValidator::new(&db);
    let result = validator.validate_channel_availability(pid, receipts);
    assert!(result.is_err(), "Join validator should also detect unbound channel");
}

#[test]
fn joins_test_wildcard_channel() {
    let result = join_result(r#"for(@x <- _) { Nil }"#);
    assert!(result.is_ok(), "Wildcard channel should validate: {:?}", result);
}

#[test]
fn test_quoted_process_as_channel() {
    let result = join_result(r#"for(@x <- @Nil) { Nil }"#);
    assert!(result.is_ok(), "Quoted process as channel should validate: {:?}", result);
}

#[test]
fn test_complex_join_pattern() {
    let result = join_result(
        r#"new ch1, ch2, ch3, ch4 in {
            for(@a <- ch1 & @b <- ch2; @c <- ch3 & @d <- ch4) {
                @a!(1) | @b!(2) | @c!(3) | @d!(4)
            }
        }"#,
    );
    assert!(result.is_ok(), "Complex join pattern should validate: {:?}", result);
}

#[test]
fn test_single_receipt_single_bind() {
    let result = join_result(r#"new ch in { for(@x <- ch) { @x!(1) } }"#);
    assert!(result.is_ok(), "Single receipt with single bind should validate: {:?}", result);
}

#[test]
fn test_multiple_parallel_same_channel() {
    let result = join_result(r#"new ch in { for(@x <- ch & @y <- ch) { Nil } }"#);
    assert!(result.is_ok(), "Multiple bindings on same channel should validate: {:?}", result);
}

#[test]
fn test_homogeneous_linear_arrows() {
    let result = arrow_result(r#"new ch1, ch2, ch3 in { for(@a <- ch1 & @b <- ch2 & @c <- ch3) { Nil } }"#);
    assert!(result.is_ok(), "Homogeneous linear arrows should validate: {:?}", result);
}

#[test]
fn test_homogeneous_repeated_arrows() {
    let result = arrow_result(r#"new ch1, ch2, ch3 in { for(@a <= ch1 & @b <= ch2 & @c <= ch3) { Nil } }"#);
    assert!(result.is_ok(), "Homogeneous repeated arrows should validate: {:?}", result);
}

#[test]
fn test_homogeneous_peek_arrows() {
    let result = arrow_result(r#"new ch1, ch2, ch3 in { for(@a <<- ch1 & @b <<- ch2 & @c <<- ch3) { Nil } }"#);
    assert!(result.is_ok(), "Homogeneous peek arrows should validate: {:?}", result);
}

#[test]
fn test_mixed_linear_and_repeated_error() {
    let result = arrow_result(r#"new ch1, ch2 in { for(@a <- ch1 & @b <= ch2) { Nil } }"#);
    assert!(result.is_err(), "Mixed linear and repeated should fail");
    if let Err(ValidationError::MixedArrowTypes { found_types, .. }) = result {
        let found = labels(&found_types);
        assert_eq!(found.len(), 2);
        assert!(found.contains(&"linear (<-)"));
        assert!(found.contains(&"repeated (<=)"));
    } else {
        panic!("Expected MixedArrowTypes error");
    }
}

#[test]
fn test_mixed_linear_and_peek_error() {
    let result = arrow_result(r#"new ch1, ch2 in { for(@a <- ch1 & @b <<- ch2) { Nil } }"#);
    assert!(result.is_err(), "Mixed linear and peek should fail");
    if let Err(ValidationError::MixedArrowTypes { found_types, .. }) = result {
        let found = labels(&found_types);
        assert_eq!(found.len(), 2);
        assert!(found.contains(&"linear (<-)"));
        assert!(found.contains(&"peek (<<-)"));
    } else {
        panic!("Expected MixedArrowTypes error");
    }
}

#[test]
fn test_mixed_repeated_and_peek_error() {
    let result = arrow_result(r#"new ch1, ch2 in { for(@a <= ch1 & @b <<- ch2) { Nil } }"#);
    assert!(result.is_err(), "Mixed repeated and peek should fail");
    if let Err(ValidationError::MixedArrowTypes { found_types, .. }) = result {
        let found = labels(&found_types);
        assert_eq!(found.len(), 2);
        assert!(found.contains(&"repeated (<=)"));
        assert!(found.contains(&"peek (<<-)"));
    } else {
        panic!("Expected MixedArrowTypes error");
    }
}

#[test]
fn test_mixed_all_three_arrow_types_error() {
    let result = arrow_result(r#"new ch1, ch2, ch3 in { for(@a <- ch1 & @b <= ch2 & @c <<- ch3) { Nil } }"#);
    assert!(result.is_err(), "Mixed all three arrow types should fail");
    if let Err(ValidationError::MixedArrowTypes { found_types, .. }) = result {
        assert_eq!(found_types.len(), 3);
    } else {
        panic!("Expected MixedArrowTypes error");
    }
}

#[test]
fn test_sequential_receipts_allow_different_types() {
    let result = arrow_result(r#"new ch1, ch2, ch3 in { for(@a <- ch1; @b <= ch2; @c <<- ch3) { Nil } }"#);
    assert!(result.is_ok(), "Sequential receipts with different arrow types should validate: {:?}", result);
}

#[test]
fn test_single_binding_always_homogeneous() {
    let result = arrow_result(r#"new ch in { for(@x <- ch) { Nil } }"#);
    assert!(result.is_ok(), "Single binding is always homogeneous: {:?}", result);
}

#[test]
fn test_complex_mixed_sequential_and_parallel() {
    let result = arrow_result(
        r#"
            new ch1, ch2, ch3, ch4, ch5, ch6 in {
                for(
                    @a <- ch1 & @b <- ch2;      // OK: all linear
                    @c <= ch3 & @d <= ch4;      // OK: all repeated
                    @e <- ch5 & @f <<- ch6      // ERROR: mixed linear + peek
                ) {
                    Nil
                }
            }
        "#,
    );
    assert!(result.is_err(), "Third receipt group has mixed types - should fail");
}

// ------------------------------------------------------------------- bindings

use librho::bindings::{classify_binding, validate_quote_unquote, BindingClassification, BindingClassifier, BindingContext};
use librho::patterns::PatternVariable;
use librho::types::{BinderKind, Symbol};

/// Indexes the process of `code` without resolving it.
fn indexed(code: &str) -> (&'static AnnProc, SemanticDb<'static>) {
    let root = parse(code);
    let mut db = SemanticDb::new();
    db.build_index(root);
    (root, db)
}

fn first_bind(p: &AnnProc) -> &Bind {
    match &p.proc {
        Proc::ForComprehension { receipts, .. } => &receipts[0][0],
        _ => panic!("Expected ForComprehension"),
    }
}

fn at_col(col: usize) -> SourcePos {
    SourcePos { line: 1, col }
}

#[test]
fn test_binding_context_creation() {
    let context = BindingContext::new();
    assert_eq!(context.quote_depth(), 0);
    assert!(context.is_proc_context());
    assert!(!context.is_name_context());
}

#[test]
fn test_binding_context_quote_depth() {
    let mut context = BindingContext::new();

    context.enter_quote();
    assert_eq!(context.quote_depth(), 1);
    assert!(context.is_name_context());
    assert!(!context.is_proc_context());

    context.enter_quote();
    assert_eq!(context.quote_depth(), 2);
    assert!(!context.is_name_context());
    assert!(context.is_proc_context());

    context.exit_quote();
    assert_eq!(context.quote_depth(), 1);
    assert!(context.is_name_context());

    context.exit_quote();
    assert_eq!(context.quote_depth(), 0);
    assert!(context.is_proc_context());
}

#[test]
fn test_binding_classification_to_binder_kind() {
    assert_eq!(BindingClassification::Name.to_binder_kind(), BinderKind::Name(None));
    assert_eq!(BindingClassification::Proc.to_binder_kind(), BinderKind::Proc);
}

#[test]
fn test_classifier_creation() {
    let (_, db) = indexed("Nil");
    let classifier = BindingClassifier::new(&db);
    assert_eq!(classifier.context().quote_depth(), 0);
    assert!(classifier.context().is_proc_context());
}

#[test]
fn test_classify_simple_linear_binding() {
    let (ast, db) = indexed(r#"for(x <- @"channel") { Nil }"#);
    let mut classifier = BindingClassifier::new(&db);
    let classification = classifier.classify_binding(first_bind(ast));
    assert_eq!(classification, BindingClassification::Proc);
}

#[test]
fn test_classify_repeated_binding() {
    let (ast, db) = indexed(r#"for(x <= @"channel") { Nil }"#);
    let mut classifier = BindingClassifier::new(&db);
    let classification = classifier.classify_binding(first_bind(ast));
    assert_eq!(classification, BindingClassification::Proc);
}

#[test]
fn test_classify_peek_binding() {
    let (ast, db) = indexed(r#"for(x <<- @"channel") { Nil }"#);
    let mut classifier = BindingClassifier::new(&db);
    let classification = classifier.classify_binding(first_bind(ast));
    assert_eq!(classification, BindingClassification::Proc);
}

#[test]
fn test_classify_variable_in_proc_context() {
    let (_, db) = indexed("x");
    let classifier = BindingClassifier::new(&db);
    let classification = classifier.classify_variable_in_pattern(&Var::Wildcard);
    assert_eq!(classification, BindingClassification::Proc);
}

#[test]
fn test_classify_variable_in_name_context() {
    let (_, db) = indexed("x");
    let mut classifier = BindingClassifier::new(&db);
    classifier.context_mut().enter_quote();
    let classification = classifier.classify_variable_in_pattern(&Var::Wildcard);
    assert_eq!(classification, BindingClassification::Name);
}

#[test]
fn test_check_binding_uniqueness_no_duplicates() {
    let (_, mut db) = indexed("x");
    let x_sym = db.intern("x");
    let y_sym = db.intern("y");
    let mut classifier = BindingClassifier::new(&db);
    let variables = vec![
        PatternVariable::new(x_sym, at_col(1), BinderKind::Proc),
        PatternVariable::new(y_sym, at_col(1), BinderKind::Proc),
    ];
    let result = classifier.check_binding_uniqueness(&variables);
    assert!(result.is_ok());
}

#[test]
fn test_check_binding_uniqueness_with_duplicates() {
    let (_, mut db) = indexed("x");
    let x_sym = db.intern("x");
    let mut classifier = BindingClassifier::new(&db);
    let variables = vec![
        PatternVariable::new(x_sym, at_col(1), BinderKind::Proc),
        PatternVariable::new(x_sym, at_col(5), BinderKind::Proc),
    ];
    let result = classifier.check_binding_uniqueness(&variables);
    assert!(result.is_err());
    if let Err(ElaborationError::DuplicateVarDef { original, duplicate, .. }) = result {
        assert_eq!(original.symbol, x_sym);
        assert_eq!(duplicate.symbol, x_sym);
        assert_ne!(original.position, duplicate.position);
    } else {
        panic!("Expected DuplicateVarDef error");
    }
}

#[test]
fn test_clear_seen_bindings() {
    let (_, mut db) = indexed("x");
    let x_sym = db.intern("x");
    let mut classifier = BindingClassifier::new(&db);
    let variables = vec![PatternVariable::new(x_sym, at_col(1), BinderKind::Proc)];
    classifier.check_binding_uniqueness(&variables).unwrap();
    assert!(classifier.has_seen_binding(x_sym));
    classifier.clear_seen_bindings();
    assert!(!classifier.has_seen_binding(x_sym));
}

#[test]
fn test_validate_quote_unquote_simple() {
    let (ast, db) = indexed("Nil");
    let mut classifier = BindingClassifier::new(&db);
    let result = classifier.validate_quote_unquote(ast);
    assert!(result.is_ok());
}

#[test]
fn test_validate_quote_unquote_with_collections() {
    let (ast, db) = indexed("[1, 2, 3]");
    let mut classifier = BindingClassifier::new(&db);
    let result = classifier.validate_quote_unquote(ast);
    assert!(result.is_ok());
}

#[test]
fn test_validate_quote_unquote_parallel() {
    let (ast, db) = indexed("Nil | ()");
    let mut classifier = BindingClassifier::new(&db);
    let result = classifier.validate_quote_unquote(ast);
    assert!(result.is_ok());
}

#[test]
fn test_has_seen_binding() {
    let (_, mut db) = indexed("x");
    let x_sym = db.intern("x");
    let mut classifier = BindingClassifier::new(&db);
    assert!(!classifier.has_seen_binding(x_sym));
    let variables = vec![PatternVariable::new(x_sym, at_col(1), BinderKind::Proc)];
    classifier.check_binding_uniqueness(&variables).unwrap();
    assert!(classifier.has_seen_binding(x_sym));
}

#[test]
fn test_get_first_occurrence() {
    let (_, mut db) = indexed("x");
    let x_sym = db.intern("x");
    let mut classifier = BindingClassifier::new(&db);
    let pos = at_col(10);
    let variables = vec![PatternVariable::new(x_sym, pos, BinderKind::Proc)];
    classifier.check_binding_uniqueness(&variables).unwrap();
    let occurrence = classifier.get_first_occurrence(x_sym);
    assert!(occurrence.is_some());
    assert_eq!(occurrence.unwrap().symbol, x_sym);
    assert_eq!(occurrence.unwrap().position, pos);
}

#[test]
fn test_classify_receipt_multiple_bindings() {
    let (ast, db) = indexed(r#"for(x <- @"ch1"; y <- @"ch2") { Nil }"#);
    let mut classifier = BindingClassifier::new(&db);
    if let Proc::ForComprehension { receipts, .. } = &ast.proc {
        assert_eq!(receipts.len(), 2);
        let result1 = classifier.classify_receipt(&receipts[0]);
        assert!(result1.is_ok());
        assert_eq!(result1.unwrap().len(), 1);
        let result2 = classifier.classify_receipt(&receipts[1]);
        assert!(result2.is_ok());
        assert_eq!(result2.unwrap().len(), 1);
    } else {
        panic!("Expected ForComprehension");
    }
}

#[test]
fn test_standalone_classify_binding() {
    let (ast, db) = indexed(r#"for(x <- @"channel") { Nil }"#);
    let classification = classify_binding(&db, first_bind(ast));
    assert_eq!(classification, BindingClassification::Proc);
}

#[test]
fn test_standalone_validate_quote_unquote() {
    let (ast, db) = indexed("[1, 2, 3]");
    let result = validate_quote_unquote(&db, ast);
    assert!(result.is_ok());
}

// -------------------------------------------------------------------- sources

use librho::sources::SourceValidator;
use librho::type_validation::{ChannelType, MessageType, TypeValidator};

fn bind_rhs_name(b: &Bind) -> &Name {
    match b {
        Bind::Linear { rhs: Source::Simple { name }, .. } => name,
        Bind::Linear { .. } => panic!("expected a simple source"),
        Bind::Repeated { rhs, .. } | Bind::Peek { rhs, .. } => rhs,
    }
}

#[test]
fn test_validate_simple_source_with_quoted_process() {
    let (root, db) = indexed(r#"for(x <- @"channel") { Nil }"#);
    let pid = db.lookup(root).unwrap();
    let validator = SourceValidator::new(&db, pid);
    let name = bind_rhs_name(first_bind(db.proc_at(pid)));
    let result = validator.validate_simple_source(name);
    assert!(result.is_ok(), "Simple source with quoted process should be valid");
    let channel_type = validator.check_channel_type(name).unwrap();
    assert!(matches!(channel_type, ChannelType::QuotedProcess));
}

#[test]
fn test_validate_simple_source_with_variable() {
    let (_, db) = indexed(r#"new x in for(y <- x) { Nil }"#);
    let for_comp_pid = db.for_comprehensions()[0];
    let validator = SourceValidator::new(&db, for_comp_pid);
    let name = bind_rhs_name(first_bind(db.proc_at(for_comp_pid)));
    let result = validator.validate_simple_source(name);
    assert!(result.is_ok());
}

#[test]
fn test_validate_repeated_bind_source() {
    let (root, db) = indexed(r#"for(x <= @"channel") { Nil }"#);
    let pid = db.lookup(root).unwrap();
    let validator = SourceValidator::new(&db, pid);
    if let Bind::Repeated { rhs, .. } = first_bind(db.proc_at(pid)) {
        let result = validator.validate_receive_send(rhs);
        assert!(result.is_ok(), "Repeated bind source should be valid");
    } else {
        panic!("expected a repeated bind");
    }
}

#[test]
fn test_validate_peek_bind_source() {
    let (root, db) = indexed(r#"for(x <<- @"channel") { Nil }"#);
    let pid = db.lookup(root).unwrap();
    let validator = SourceValidator::new(&db, pid);
    if let Bind::Peek { rhs, .. } = first_bind(db.proc_at(pid)) {
        let result = validator.validate_simple_source(rhs);
        assert!(result.is_ok(), "Peek bind source should be valid");
    } else {
        panic!("expected a peek bind");
    }
}

#[test]
fn test_validate_source_dispatcher() {
    let (root, db) = indexed(r#"for(x <- @"ch") { Nil }"#);
    let pid = db.lookup(root).unwrap();
    let validator = SourceValidator::new(&db, pid);
    if let Bind::Linear { rhs, .. } = first_bind(db.proc_at(pid)) {
        let result = validator.validate_source(rhs);
        assert!(result.is_ok(), "Source validation should succeed");
    } else {
        panic!("expected a linear bind");
    }
}

#[test]
fn test_channel_type_detection_quoted() {
    let (root, db) = indexed(r#"for(x <- @Nil) { Nil }"#);
    let pid = db.lookup(root).unwrap();
    let validator = SourceValidator::new(&db, pid);
    let name = bind_rhs_name(first_bind(db.proc_at(pid)));
    let channel_type = validator.check_channel_type(name).unwrap();
    assert!(matches!(channel_type, ChannelType::QuotedProcess));
}

#[test]
fn test_multiple_bindings_validation() {
    let (root, db) = indexed(r#"for(x <- @"ch1"; y <= @"ch2"; z <<- @"ch3") { Nil }"#);
    let pid = db.lookup(root).unwrap();
    let validator = SourceValidator::new(&db, pid);
    if let Proc::ForComprehension { receipts, .. } = &db.proc_at(pid).proc {
        for receipt in receipts.iter() {
            for bind in receipt.iter() {
                let result = match bind {
                    Bind::Linear { rhs, .. } => validator.validate_source(rhs),
                    Bind::Repeated { rhs, .. } => validator.validate_receive_send(rhs),
                    Bind::Peek { rhs, .. } => validator.validate_simple_source(rhs),
                };
                assert!(result.is_ok(), "All sources should be valid");
            }
        }
    }
}

#[test]
fn test_unforgeable_name_source() {
    let (root, db) = indexed(r#"for(x <- @"test") { Nil }"#);
    let pid = db.lookup(root).unwrap();
    let validator = SourceValidator::new(&db, pid);
    if let Bind::Linear { rhs, .. } = first_bind(db.proc_at(pid)) {
        let result = validator.validate_source(rhs);
        assert!(result.is_ok());
    }
}

// ----------------------------------------------------------------- validation

use librho::query::PatternQueryValidator;

fn origin_span(len: usize) -> SourceSpan {
    SourceSpan { start: at_col(1), end: at_col(1 + len) }
}

#[test]
fn test_pattern_query_validator_creation() {
    let validator = PatternQueryValidator::new();
    let nil = AnnProc { proc: Proc::Nil, span: origin_span(3) };
    assert!(validator.validate_sql_like_patterns(&nil).is_ok());
}

#[test]
fn test_validate_simple_pattern() {
    let (_db, _pid) = setup_db(r#"new ch in { for(@x <- ch) { Nil } }"#);
    let validator = PatternQueryValidator::new();
    let pattern = AnnProc { proc: Proc::Nil, span: origin_span(3) };
    let result = validator.validate_sql_like_patterns(&pattern);
    assert!(result.is_ok(), "Simple pattern should validate: {:?}", result);
}

#[test]
fn test_validate_satisfiable_pattern() {
    let (_db, _pid) = setup_db(r#"new ch in { for(@x <- ch) { Nil } }"#);
    let validator = PatternQueryValidator::new();
    let pattern = AnnProc { proc: Proc::LongLiteral(42), span: origin_span(2) };
    let result = validator.validate_pattern_satisfiability(&pattern);
    assert!(result.is_ok(), "Satisfiable pattern should validate: {:?}", result);
}

#[test]
fn test_extract_ground_value() {
    let validator = PatternQueryValidator::new();
    let nil_pattern = AnnProc { proc: Proc::Nil, span: origin_span(3) };
    assert_eq!(validator.extract_ground_value(&nil_pattern), Some("Nil".to_string()));
    let bool_pattern = AnnProc { proc: Proc::BoolLiteral(true), span: origin_span(4) };
    assert_eq!(validator.extract_ground_value(&bool_pattern), Some("true".to_string()));
    let int_pattern = AnnProc { proc: Proc::LongLiteral(42), span: origin_span(2) };
    assert_eq!(validator.extract_ground_value(&int_pattern), Some("42".to_string()));
}

fn channel_usage(code: &str) -> Result<(), ValidationError> {
    let (db, pid) = setup_db(code);
    let validator = TypeValidator::new(&db);
    validator.validate_channel_usage(pid)
}

#[test]
fn validation_test_validator_creation() {
    let db = SemanticDb::new();
    let validator = TypeValidator::new(&db);
    assert!(std::ptr::eq(validator.db, &db));
}

#[test]
fn test_infer_channel_type_quoted() {
    let (db, _pid) = setup_db(r#"for(@x <- @Nil) { Nil }"#);
    let _validator = TypeValidator::new(&db);
    assert!(db.pids().len() > 0);
}

#[test]
fn test_infer_channel_type_variable() {
    let (db, _pid) = setup_db(r#"new ch in { for(@x <- ch) { Nil } }"#);
    let _validator = TypeValidator::new(&db);
    assert!(db.pids().len() > 0);
}

#[test]
fn test_validate_simple_for_comp() {
    let result = channel_usage(r#"new ch in { for(@x <- ch) { Nil } }"#);
    assert!(result.is_ok(), "Simple for-comp should validate: {:?}", result);
}

#[test]
fn test_validate_multiple_bindings() {
    let result = channel_usage(r#"new ch1, ch2 in { for(@x <- ch1; @y <- ch2) { Nil } }"#);
    assert!(result.is_ok(), "Multiple bindings should validate: {:?}", result);
}

#[test]
fn test_validate_list_pattern() {
    let result = channel_usage(r#"new ch in { for(@[x, y, z] <- ch) { Nil } }"#);
    assert!(result.is_ok(), "List pattern should validate: {:?}", result);
}

#[test]
fn test_validate_tuple_pattern() {
    let result = channel_usage(r#"new ch in { for(@(x, y) <- ch) { Nil } }"#);
    assert!(result.is_ok(), "Tuple pattern should validate: {:?}", result);
}

#[test]
fn test_validate_ground_pattern() {
    let result = channel_usage(r#"new ch in { for(@42 <- ch) { Nil } }"#);
    assert!(result.is_ok(), "Ground pattern should validate: {:?}", result);
}

#[test]
fn test_validate_complex_pattern() {
    let result = channel_usage(r#"new ch in { for(@[x, y, ...rest] <- ch) { Nil } }"#);
    assert!(result.is_ok(), "Complex pattern with remainder should validate: {:?}", result);
}

#[test]
fn test_infer_message_type_ground() {
    let (db, _pid) = setup_db(r#"new ch in { for(@Nil <- ch) { Nil } }"#);
    let validator = TypeValidator::new(&db);
    let proc = AnnProc { proc: Proc::Nil, span: origin_span(3) };
    let msg_type = validator.infer_proc_pattern_type(&proc).unwrap();
    assert_eq!(msg_type, MessageType::Ground);
}

#[test]
fn test_validate_unforgeable_name_channel() {
    let result = channel_usage(r#"new unforgeable(`rho:test:uri`) in { for(@x <- unforgeable) { Nil } }"#);
    assert!(result.is_ok(), "Unforgeable name channel should validate: {:?}", result);
}

#[test]
fn test_validate_peek_binding() {
    let result = channel_usage(r#"new ch in { for(@x <<- ch) { Nil } }"#);
    assert!(result.is_ok(), "Peek binding should validate: {:?}", result);
}

#[test]
fn test_validate_repeated_binding() {
    let result = channel_usage(r#"new ch in { for(@x <= ch) { Nil } }"#);
    assert!(result.is_ok(), "Repeated binding should validate: {:?}", result);
}

#[test]
fn test_validate_mixed_bind_types() {
    let result = channel_usage(r#"new ch1, ch2, ch3 in { for(@x <- ch1; @y <= ch2; @z <<- ch3) { Nil } }"#);
    assert!(result.is_ok(), "Mixed bind types should validate: {:?}", result);
}

// ------------------------------------------------------------------- patterns

use librho::patterns::{extract_pattern_variables, PatternAnalyzer};

fn symbol_text(db: &SemanticDb, sym: Symbol) -> String {
    db.resolve_symbol(sym).unwrap().to_string()
}

#[test]
fn test_analyze_simple_variable_pattern() {
    let (proc, mut db) = indexed("x");
    let mut analyzer = PatternAnalyzer::new();
    let info = analyzer.analyze_pattern(&mut db, proc).unwrap();
    assert_eq!(info.variables.len(), 1);
    assert_eq!(symbol_text(&db, info.variables[0].symbol), "x");
    assert!(!info.has_wildcards);
    assert!(!info.has_remainder);
    assert!(!info.has_connectives);
}

#[test]
fn test_analyze_wildcard_pattern() {
    let (proc, mut db) = indexed("_");
    let mut analyzer = PatternAnalyzer::new();
    let info = analyzer.analyze_pattern(&mut db, proc).unwrap();
    assert_eq!(info.variables.len(), 0);
    assert!(info.has_wildcards);
}

#[test]
fn test_analyze_list_pattern_with_variables() {
    let (proc, mut db) = indexed("[x, y, z]");
    let mut analyzer = PatternAnalyzer::new();
    let info = analyzer.analyze_pattern(&mut db, proc).unwrap();
    assert_eq!(info.variables.len(), 3);
    assert!(!info.has_wildcards);
    assert!(!info.has_remainder);
}

#[test]
fn test_analyze_list_pattern_with_remainder() {
    let (proc, mut db) = indexed("[x, y ...rest]");
    let mut analyzer = PatternAnalyzer::new();
    let info = analyzer.analyze_pattern(&mut db, proc).unwrap();
    assert_eq!(info.variables.len(), 3);
    assert!(info.has_remainder);
    let rest_var = info.variables.iter().find(|v| symbol_text(&db, v.symbol) == "rest").unwrap();
    assert!(rest_var.is_remainder);
}

#[test]
fn test_analyze_nested_pattern() {
    let (proc, mut db) = indexed("[[x, y], [z, w]]");
    let mut analyzer = PatternAnalyzer::new();
    let info = analyzer.analyze_pattern(&mut db, proc).unwrap();
    assert_eq!(info.variables.len(), 4);
    assert!(info.depth > 1);
}

#[test]
fn test_connective_detection() {
    let (proc, mut db) = indexed("[x, y]");
    let mut analyzer = PatternAnalyzer::new();
    let info = analyzer.analyze_pattern(&mut db, proc).unwrap();
    assert!(!info.has_connectives);
}

#[test]
fn test_pattern_satisfiability_simple() {
    let (proc, _db) = indexed("42");
    let analyzer = PatternAnalyzer::new();
    let result = analyzer.check_pattern_satisfiability(proc);
    assert!(result.is_ok());
}

#[test]
fn test_pattern_satisfiability_collection() {
    let (proc, _db) = indexed("[1, 2, 3]");
    let analyzer = PatternAnalyzer::new();
    let result = analyzer.check_pattern_satisfiability(proc);
    assert!(result.is_ok());
}

#[test]
fn test_extract_pattern_variables() {
    let (proc, mut db) = indexed("[x, y, z]");
    let vars = extract_pattern_variables(&mut db, proc).unwrap();
    assert_eq!(vars.len(), 3);
    let var_names: Vec<_> = vars.iter().map(|v| symbol_text(&db, v.symbol)).collect();
    assert!(var_names.contains(&"x".to_string()));
    assert!(var_names.contains(&"y".to_string()));
    assert!(var_names.contains(&"z".to_string()));
}

#[test]
fn test_parallel_patterns() {
    let (proc, mut db) = indexed("x | y");
    let mut analyzer = PatternAnalyzer::new();
    let info = analyzer.analyze_pattern(&mut db, proc).unwrap();
    assert_eq!(info.variables.len(), 2);
}

#[test]
fn test_mixed_pattern_with_wildcards() {
    let (proc, mut db) = indexed("[x, _, z]");
    let mut analyzer = PatternAnalyzer::new();
    let info = analyzer.analyze_pattern(&mut db, proc).unwrap();
    assert_eq!(info.variables.len(), 2);
    assert!(info.has_wildcards);
}

#[test]
fn test_tuple_pattern() {
    let (proc, mut db) = indexed("(x, y, z)");
    let mut analyzer = PatternAnalyzer::new();
    let info = analyzer.analyze_pattern(&mut db, proc).unwrap();
    assert_eq!(info.variables.len(), 3);
}

#[test]
fn test_map_pattern() {
    let (proc, mut db) = indexed("{\"key\": value}");
    let mut analyzer = PatternAnalyzer::new();
    let info = analyzer.analyze_pattern(&mut db, proc).unwrap();
    assert_eq!(info.variables.len(), 1);
    assert_eq!(symbol_text(&db, info.variables[0].symbol), "value");
}

#[test]
fn test_pattern_depth_tracking() {
    let (proc, mut db) = indexed("[[[x]]]");
    let mut analyzer = PatternAnalyzer::new();
    let info = analyzer.analyze_pattern(&mut db, proc).unwrap();
    assert!(info.depth >= 3);
}

// ---------------------------------------------------------------- scope utils

use librho::scope_utils::{add_pattern_variable, add_remainder_variable, check_duplicate_symbol};

#[test]
fn test_check_duplicate_symbol_no_duplicate() {
    let symbol = Symbol(1);
    let seen: Vec<Symbol> = Vec::new();
    let vars: Vec<PatternVariable> = vec![];
    let result = check_duplicate_symbol(symbol, at_col(1), &seen, &vars, PID(0));
    assert!(result.is_ok());
}

#[test]
fn test_check_duplicate_symbol_with_duplicate() {
    let symbol = Symbol(1);
    let seen = vec![symbol];
    let vars = vec![PatternVariable::new(symbol, at_col(1), BinderKind::Proc)];
    let result = check_duplicate_symbol(symbol, at_col(5), &seen, &vars, PID(0));
    assert!(result.is_err());
    if let Err(ElaborationError::DuplicateVarDef { original, duplicate, .. }) = result {
        assert_eq!(original.symbol, symbol);
        assert_eq!(duplicate.symbol, symbol);
        assert_ne!(original.position, duplicate.position);
    } else {
        panic!("Expected DuplicateVarDef error");
    }
}

#[test]
fn test_add_pattern_variable() {
    let symbol = Symbol(1);
    let mut seen: Vec<Symbol> = Vec::new();
    let mut vars = vec![];
    let result = add_pattern_variable(symbol, at_col(1), BinderKind::Proc, &mut seen, &mut vars, PID(0));
    assert!(result.is_ok());
    assert!(seen.contains(&symbol));
    assert_eq!(vars.len(), 1);
    assert_eq!(vars[0].symbol, symbol);
    assert!(!vars[0].is_remainder);
}

#[test]
fn test_add_remainder_variable() {
    let symbol = Symbol(1);
    let mut seen: Vec<Symbol> = Vec::new();
    let mut vars = vec![];
    let result = add_remainder_variable(symbol, at_col(1), BinderKind::Proc, &mut seen, &mut vars, PID(0));
    assert!(result.is_ok());
    assert!(seen.contains(&symbol));
    assert_eq!(vars.len(), 1);
    assert_eq!(vars[0].symbol, symbol);
    assert!(vars[0].is_remainder);
}

#[test]
fn test_add_pattern_variable_duplicate_error() {
    let symbol = Symbol(1);
    let mut seen: Vec<Symbol> = Vec::new();
    let mut vars = vec![];
    let result1 = add_pattern_variable(symbol, at_col(1), BinderKind::Proc, &mut seen, &mut vars, PID(0));
    assert!(result1.is_ok());
    let result2 = add_pattern_variable(symbol, at_col(5), BinderKind::Proc, &mut seen, &mut vars, PID(0));
    assert!(result2.is_err());
}

// --------------------------------------------------------------------- passes

use librho::elaborator::{ForCompElaborationPass as DiagnosticElaborationPass, ForCompElaborator};
use librho::passes::ForCompElaborationPass;

#[test]
fn test_for_comp_elaboration_pass_basic() {
    let (_, mut db) = indexed(r#"for(x <- @"channel") { Nil }"#);
    let pass = ForCompElaborationPass;
    pass.run(&mut db);
    assert!(!db.has_errors(), "Valid for-comp should not produce errors");
}

#[test]
fn test_for_comp_elaboration_pass_with_errors() {
    let (_, mut db) = indexed(r#"for(x <- @"ch1"; y <- @"ch2") { x!(y) }"#);
    let pass = ForCompElaborationPass;
    pass.run(&mut db);
}

#[test]
fn test_for_comp_elaboration_pass_multiple_for_comps() {
    let (_, mut db) = indexed(
        r#"
            for(x <- @"ch1") { Nil } |
            for(y <- @"ch2") { Nil }
        "#,
    );
    let count = db.for_comprehensions().len();
    assert_eq!(count, 2, "Should have 2 for-comprehensions");
    let pass = ForCompElaborationPass;
    pass.run(&mut db);
    assert!(!db.has_errors(), "Valid for-comps should not produce errors");
}

#[test]
fn test_for_comp_elaboration_pass_no_for_comps() {
    let (_, mut db) = indexed("Nil | ()");
    assert_eq!(db.for_comprehensions().len(), 0);
    let pass = ForCompElaborationPass;
    pass.run(&mut db);
    assert!(!db.has_errors());
}

#[test]
fn test_for_comp_elaboration_pass_nested() {
    let (_, mut db) = indexed(
        r#"
            for(x <- @"outer") {
                for(y <- @"inner") { Nil }
            }
        "#,
    );
    let count = db.for_comprehensions().len();
    assert_eq!(count, 2, "Should have 2 for-comprehensions (nested)");
    let pass = ForCompElaborationPass;
    pass.run(&mut db);
    assert!(!db.has_errors(), "Valid nested for-comps should not produce errors");
}

#[test]
fn test_pass_name() {
    let pass = DiagnosticElaborationPass;
    let name = pass.name();
    assert_eq!(name, "ForCompElaborationPass");
}

#[test]
fn fact_pass_name() {
    assert_eq!(ForCompElaborationPass.name(), "ForCompElaboration");
}

#[test]
fn diagnostic_pass_counts_mixed_arrow_groups() {
    let (_, db) = indexed("for(@x <- ch1 & @y <= ch2) { Nil } | for(@a <= ch3 & @b <<- ch4) { Nil }");
    assert_eq!(DiagnosticElaborationPass.run(&db).len(), 2);
    let (_, db) = indexed("for(@x <- ch1) { for(@y <- ch2 & @z <- ch3) { Nil } }");
    assert_eq!(DiagnosticElaborationPass.run(&db).len(), 0);
    let (_, db) = indexed("for(@x <- ch1 & @y <= ch2) { Nil }");
    let pid = db.for_comprehensions()[0];
    assert_eq!(ForCompElaborator::new(&db).elaborate(pid).len(), 1);
}

// ----------------------------------------------------------------- resolution

use librho::resolution::VariableResolver;

/// Resolves `code`, then the variables of the body of its `for`.
fn resolve_for_body(code: &str) -> (SemanticDb<'static>, Vec<ElaborationError>) {
    let (mut db, pid) = setup_db(code);
    let body = match &db.proc_at(pid).proc {
        Proc::ForComprehension { proc, .. } => &**proc,
        _ => panic!("Not a for-comprehension"),
    };
    let mut resolver = VariableResolver::new(pid);
    let errors = resolver.resolve_body(&mut db, body).expect("the scope of the for is built");
    (db, errors)
}

#[test]
fn resolve_body_name_binder_in_name_position() {
    let (db, errors) = resolve_for_body(r#"for(x <- @"channel") { x!(42) }"#);
    assert!(errors.is_empty(), "a name used as a channel resolves: {:?}", errors);
    assert!(!db.has_errors());
}

#[test]
fn resolve_body_unbound_variable() {
    let (_, errors) = resolve_for_body(r#"for(@x <- @"channel") { y!(42) }"#);
    assert_eq!(errors.len(), 1);
    assert!(matches!(errors[0], ElaborationError::UnboundVariable { .. }));
}

#[test]
fn resolve_body_process_binder_in_name_position() {
    let (_, errors) = resolve_for_body(r#"for(@x <- @"channel") { x!(1) | x!(2) }"#);
    assert_eq!(errors.len(), 2);
    assert!(errors.iter().all(|e| matches!(e, ElaborationError::ProcInNamePosition { .. })));
}

#[test]
fn resolve_body_list_pattern_binders() {
    let (_, errors) = resolve_for_body(r#"for(@[x, y, z] <- @"channel") { x | y | z }"#);
    assert!(errors.is_empty(), "process binders used as processes resolve: {:?}", errors);
}

// ------------------------------------------------ resolution and enclosure

use librho::db::SemanticDb as Db;
use librho::diagnostics::{DisjunctionConsistencyCheck, NumericTypeConsistencyCheck, UnusedVarsPass};
use librho::enclosure::EnclosureAnalysisPass;
use librho::types::{DiagnosticKind, ErrorKind, NumericType, VarBinding, WarningKind};

/// Indexes `code`, resolves it and computes its enclosure relation.
fn analysed(code: &str) -> (Db<'static>, PID) {
    let (mut db, root) = resolved(code);
    EnclosureAnalysisPass::new(root).run(&mut db);
    (db, root)
}

#[test]
fn enclosure_follows_the_scopes() {
    // 0 new x | 1 par | 2 Nil | 3 new y | 4 Nil
    let (db, _) = analysed("new x in { Nil | new y in { Nil } }");
    assert_eq!(db.pid_count(), 5);
    assert!(db.is_scoped(PID(0)));
    assert!(db.is_scoped(PID(3)));
    assert_eq!(db.enclosing_process(PID(0)), None);
    assert_eq!(db.enclosing_process(PID(1)), Some(PID(0)));
    assert_eq!(db.enclosing_process(PID(2)), Some(PID(0)));
    assert_eq!(db.enclosing_process(PID(3)), Some(PID(0)));
    assert_eq!(db.enclosing_process(PID(4)), Some(PID(3)));
}

#[test]
fn enclosure_of_quoted_channel_is_the_current_scope() {
    // 0 new ch | 1 send on @x | 2 x (quoted) | 3 Nil
    let (db, _) = analysed("new x in { @x!(Nil) }");
    assert_eq!(db.pid_count(), 4);
    assert_eq!(db.enclosing_process(PID(2)), Some(PID(0)));
    assert_eq!(db.enclosing_process(PID(3)), Some(PID(0)));
}

#[test]
fn enclosing_process_precedes_and_opens_a_scope() {
    let (db, _) = analysed(r#"new a, b in { for(@x <- a; @y <= b) { new c in { c!(x) | @y!(Nil) } } }"#);
    for pid in db.pids() {
        if let Some(enc) = db.enclosing_process(pid) {
            assert!(enc.0 < pid.0);
            assert!(db.is_scoped(enc));
        }
    }
}

#[test]
fn enclosure_pass_name() {
    assert_eq!(EnclosureAnalysisPass::new(PID(7)).name(), "EnclosureAnalysis(7)");
    assert_eq!(ResolverPass::new(PID(12)).name(), "ResolverPass(12)");
}

#[test]
fn every_binding_names_its_binder() {
    let (db, _) = resolved(r#"new a, b in { for(@x <- a; @y <= b) { new c in { c!(x) | @y!(Nil) } } }"#);
    let bound = db.bound_positions();
    assert!(!bound.is_empty());
    for occ in bound {
        if let VarBinding::Bound(b) = occ.binding {
            assert_eq!(db.binder(b).name, occ.occurence.symbol);
        }
    }
}

#[test]
fn unbound_variable_is_an_error() {
    let (db, _) = resolved("new a in { b!(Nil) }");
    assert!(db.has_errors());
    assert_eq!(db.errors().len(), 1);
    assert!(matches!(db.errors()[0].kind, DiagnosticKind::Error(ErrorKind::UnboundVariable)));
}

#[test]
fn every_variable_is_bound_introduced_or_reported() {
    let code = "new a in { a!(b) | for(@x <- a) { x!(c) } | match 1 { d => e!(d) } }";
    let (db, _) = resolved(code);
    let id_at = |name: &str, from: usize| {
        let at = from + code[from..].find(name).unwrap();
        Id { name: name.to_string(), pos: at_col(at + 1) }
    };
    let body = code.find('{').unwrap();
    for (name, from) in [("a", body), ("a", code.find("<-").unwrap()), ("x", code.find("@x").unwrap()), ("x", code.find("x!").unwrap()), ("d", code.find("1 {").unwrap()), ("d", code.find("e!").unwrap())] {
        let id = id_at(name, from);
        assert!(db.binder_of_id(&id).is_some(), "{} at {:?} is not recorded", name, id.pos);
    }
    let mut unbound: Vec<SourcePos> = db
        .errors()
        .iter()
        .filter(|d| matches!(d.kind, DiagnosticKind::Error(ErrorKind::UnboundVariable)))
        .map(|d| d.exact_position.unwrap())
        .collect();
    unbound.sort_by_key(|p| p.col);
    let expected: Vec<SourcePos> = ["b", "c", "e"].iter().map(|n| id_at(n, body).pos).collect();
    assert_eq!(unbound, expected);
}

#[test]
fn every_binding_construct_gets_its_scope() {
    let (db, root) = resolved("new a in { for(@x <- a) { match x { y => Nil } } }");
    let new_pid = root;
    let for_pid = db.find_proc(|p| matches!(p.proc, Proc::ForComprehension { .. })).map(|(pid, _)| pid).unwrap();
    let case_pid = db.find_proc(|p| matches!(&p.proc, Proc::ProcVar(Var::Id(id)) if id.name == "y")).map(|(pid, _)| pid).unwrap();
    for pid in [new_pid, for_pid, case_pid] {
        assert!(db.get_scope(pid).is_some(), "no scope at {:?}", pid);
    }
    let nil_pid = db.find_proc(|p| matches!(p.proc, Proc::Nil)).map(|(pid, _)| pid).unwrap();
    assert!(db.get_scope(nil_pid).is_none());
}

#[test]
fn a_tree_never_binds_to_the_binders_of_another() {
    let first = parse("new a in { a!(Nil) }");
    let second = parse("a!(Nil)");
    let mut db = SemanticDb::new();
    let p1 = db.build_index(first);
    let p2 = db.build_index(second);
    ResolverPass::new(p1).run(&mut db);
    ResolverPass::new(p2).run(&mut db);
    let errors = db.errors();
    assert_eq!(errors.len(), 1);
    assert!(matches!(errors[0].kind, DiagnosticKind::Error(ErrorKind::UnboundVariable)));
    assert_eq!(errors[0].pid, p2);
    let use_in_first = Id { name: "a".to_string(), pos: at_col(12) };
    match db.binder_of_id(&use_in_first) {
        Some(VarBinding::Bound(b)) => assert_eq!(db.binder(b).scope, p1),
        other => panic!("expected a binding, got {:?}", other),
    }
}

#[test]
fn unused_binders_are_warned_about() {
    let (db, _) = analysed("new a, b in { a!(Nil) }");
    let warnings = UnusedVarsPass.run(&db);
    assert_eq!(warnings.len(), 1);
    let b = db.symbol_of("b").unwrap();
    assert!(matches!(warnings[0].kind, DiagnosticKind::Warning(WarningKind::UnusedVariable(_, s)) if s == b));
    assert_eq!(UnusedVarsPass.name(), "UnusedVar");
}

#[test]
fn disjunction_sides_must_bind_the_same_variables() {
    let (db, _) = analysed("match [42] { [x] \\/ [y] => Nil }");
    let errors = DisjunctionConsistencyCheck.run(&db);
    let x = db.symbol_of("x").unwrap();
    let y = db.symbol_of("y").unwrap();
    assert_eq!(errors.len(), 2);
    assert!(matches!(errors[0].kind, DiagnosticKind::Error(ErrorKind::UnmatchedVarInDisjunction(s)) if s == y));
    assert!(matches!(errors[1].kind, DiagnosticKind::Error(ErrorKind::UnmatchedVarInDisjunction(s)) if s == x));
    assert_eq!(DisjunctionConsistencyCheck.try_run(&db).map(|d| d.len()), Some(2));
}

#[test]
fn matching_disjunction_is_fine() {
    let (db, _) = analysed("match [1, 2] { [x, y] \\/ [x, y] => Nil }");
    assert!(DisjunctionConsistencyCheck.run(&db).is_empty());
}

#[test]
fn disjunction_missing_a_variable_on_the_right() {
    let (db, _) = analysed("match [1, 2] { ([a, b] \\/ [a]) => Nil }");
    let errors = DisjunctionConsistencyCheck.run(&db);
    let b = db.symbol_of("b").unwrap();
    assert_eq!(errors.len(), 1);
    assert!(matches!(errors[0].kind, DiagnosticKind::Error(ErrorKind::UnmatchedVarInDisjunction(s)) if s == b));
}

fn arith(op: BinaryExpOp, left: Proc, right: Proc) -> &'static AnnProc {
    let span = SourceSpan { start: at_col(1), end: at_col(9) };
    Box::leak(Box::new(AnnProc {
        proc: Proc::BinaryExp {
            op,
            left: Box::new(AnnProc { proc: left, span }),
            right: Box::new(AnnProc { proc: right, span }),
        },
        span,
    }))
}

#[test]
fn mixed_numeric_types_are_errors() {
    let mut db = Db::new();
    db.build_index(arith(BinaryExpOp::Add, Proc::LongLiteral(1), Proc::SignedIntLiteral { value: "2".to_string(), bits: 8 }));
    let found = NumericTypeConsistencyCheck.run(&db);
    assert_eq!(found.len(), 1);
    assert_eq!(
        found[0].kind,
        DiagnosticKind::Error(ErrorKind::MixedNumericTypes {
            op: BinaryExpOp::Add,
            left: NumericType::Int64,
            right: NumericType::SignedInt { bits: 8 },
        })
    );
    assert_eq!(found[0].pid, PID(0));
}

#[test]
fn float_remainder_is_an_error() {
    let mut db = Db::new();
    let f = || Proc::FloatLiteral { value: "1.5".to_string(), bits: 64 };
    db.build_index(arith(BinaryExpOp::Mod, f(), f()));
    let found = NumericTypeConsistencyCheck.run(&db);
    assert_eq!(found.len(), 1);
    assert!(matches!(found[0].kind, DiagnosticKind::Error(ErrorKind::UnsupportedNumericOperator { op: BinaryExpOp::Mod, .. })));
    let mut db = Db::new();
    db.build_index(arith(BinaryExpOp::Add, Proc::LongLiteral(1), Proc::LongLiteral(2)));
    assert!(NumericTypeConsistencyCheck.run(&db).is_empty());
}

// --------------------------------------------------------------------- laws

#[test]
fn error_flag_matches_the_error_list() {
    let (mut db, _) = resolved("new a in { a!(Nil) }");
    assert!(!db.has_errors());
    assert!(db.errors().is_empty());
    db.warning(PID(0), WarningKind::UnusedVariable(librho::types::BinderId(0), Symbol(0)), None);
    assert!(!db.has_errors());
    assert_eq!(db.warnings().len(), 1);
    db.error(PID(0), ErrorKind::BadCode, None);
    assert!(db.has_errors());
    assert_eq!(db.errors().len(), 1);
    db.warning(PID(0), WarningKind::UnusedVariable(librho::types::BinderId(0), Symbol(0)), None);
    assert!(db.has_errors());
}

#[test]
fn interning_twice_gives_one_symbol() {
    let mut db = Db::new();
    let a = db.intern("alpha");
    let count = db.symbol_count();
    let again = db.intern("alpha");
    assert_eq!(a, again);
    assert_eq!(db.symbol_count(), count);
    assert_eq!(db.resolve_symbol(a), Some("alpha"));
    let b = db.intern("beta");
    assert_ne!(a, b);
    assert_eq!(db.resolve_symbol_owned(b), Some("beta".to_string()));
    assert_eq!(db.resolve_symbol(Symbol(99)), None);
}

#[test]
fn binder_offsets_round_trip() {
    let b = librho::types::BinderId(7);
    assert_eq!(b.add(5).checked_sub(b), Some(librho::types::BinderId(5)));
    assert_eq!(b.checked_sub(librho::types::BinderId(9)), None);
}

// ------------------------------------------------------------ dependencies

use librho::deps::DependencyGraph;

fn graph(edges: &[(u32, &[u32])], channels: &[u32]) -> DependencyGraph {
    DependencyGraph {
        edges: edges.iter().map(|(a, bs)| (Symbol(*a), bs.iter().map(|b| Symbol(*b)).collect())).collect(),
        channels: channels.iter().map(|c| Symbol(*c)).collect(),
    }
}

#[test]
fn dependency_cycle_is_found() {
    let g = graph(&[(1, &[2]), (2, &[3]), (3, &[1])], &[1, 2, 3]);
    let cycle = g.find_cycle().expect("a cycle");
    assert_eq!(cycle, vec![Symbol(1), Symbol(2), Symbol(3)]);
}

#[test]
fn dependency_cycle_starts_where_the_path_meets_itself() {
    let g = graph(&[(0, &[1]), (1, &[2]), (2, &[1])], &[0, 1, 2]);
    assert_eq!(g.find_cycle(), Some(vec![Symbol(1), Symbol(2)]));
}

#[test]
fn acyclic_dependencies_have_no_cycle() {
    let g = graph(&[(0, &[1, 2]), (1, &[2])], &[0, 1, 2]);
    assert_eq!(g.find_cycle(), None);
    assert!(!g.is_empty());
    assert!(DependencyGraph::new().is_empty());
    assert_eq!(DependencyGraph::new().find_cycle(), None);
}

// ------------------------------------------------------------ conversions

use librho::types::{Binder, Diagnostic, SymbolOccurrence};

#[test]
fn binder_converts_to_its_occurrence() {
    let b = Binder { name: Symbol(3), kind: BinderKind::Proc, scope: PID(1), index: 0, source_position: at_col(4) };
    let occ: SymbolOccurrence = b.into();
    assert_eq!(occ.symbol, Symbol(3));
    assert_eq!(occ.position, at_col(4));
}

#[test]
fn elaboration_error_converts_to_a_diagnostic() {
    let e = ElaborationError::UnboundVariable { pid: PID(2), var: Symbol(1), pos: at_col(7) };
    let d: Diagnostic = e.into();
    assert_eq!(d.pid, PID(2));
    assert_eq!(d.kind, DiagnosticKind::Error(ErrorKind::UnboundVariable));
    assert_eq!(d.exact_position, Some(at_col(7)));
}

// ------------------------------------------------------- resolution results

use fixedbitset::FixedBitSet;
use librho::bits::BitList;
use librho::scope::ScopeInfo;
use librho::text::{i64_to_string, u32_to_string, usize_to_string};
use librho::types::BinderId;

/// The identifier of the channel of the send `p`.
fn send_channel_id(p: &AnnProc) -> &Id {
    match &p.proc {
        Proc::Send { channel: Name::NameVar(Var::Id(id)), .. } => id,
        _ => panic!("Expected a send on a variable"),
    }
}

#[test]
fn resolve_body_marks_the_binder_used() {
    let (root, mut db) = indexed(r#"for(x <- @"channel") { x!(42) }"#);
    let pid = db.lookup(root).unwrap();
    let name = db.intern("x");
    let binder = db.fresh_binder(Binder {
        name,
        kind: BinderKind::Name(None),
        scope: pid,
        index: 0,
        source_position: at_col(5),
    });
    assert!(db.add_scope(pid, ScopeInfo::new(binder, 1, root.span)));
    assert_eq!(db.get_scope(pid).unwrap().unused(), vec![binder]);
    let body = match &root.proc {
        Proc::ForComprehension { proc, .. } => &**proc,
        _ => panic!("Not a for-comprehension"),
    };
    let mut resolver = VariableResolver::new(pid);
    let errors = resolver.resolve_body(&mut db, body).expect("the scope of the for is built");
    assert!(errors.is_empty());
    assert!(db.get_scope(pid).unwrap().unused().is_empty());
    assert!(db.get_scope(pid).unwrap().all_used());
    let id = send_channel_id(body);
    assert_eq!(db.binder_of_id(id), Some(VarBinding::Bound(binder)));
}

#[test]
fn binders_of_a_scope_without_binders_is_none() {
    let (root, mut db) = indexed("Nil");
    let pid = db.lookup(root).unwrap();
    assert!(db.add_scope(pid, ScopeInfo::ground(BinderId(0), root.span)));
    assert!(db.is_scoped(pid));
    assert!(db.binders_of(pid).is_none());
}

#[test]
fn simple_source_unbound_after_resolution() {
    let (db, _) = resolved(r#"for(y <- x) { Nil }"#);
    let for_comp_pid = db.for_comprehensions()[0];
    let validator = SourceValidator::new(&db, for_comp_pid);
    let name = bind_rhs_name(first_bind(db.proc_at(for_comp_pid)));
    let result = validator.validate_simple_source(name);
    assert!(matches!(result, Err(ValidationError::UnboundVariable { .. })), "{:?}", result);
}

#[test]
fn simple_source_bound_after_resolution() {
    let (db, _) = resolved(r#"new x in for(y <- x) { Nil }"#);
    let for_comp_pid = db.for_comprehensions()[0];
    let validator = SourceValidator::new(&db, for_comp_pid);
    let name = bind_rhs_name(first_bind(db.proc_at(for_comp_pid)));
    assert!(validator.validate_simple_source(name).is_ok());
}

#[test]
fn conjunction_of_fixed_sizes_is_unsatisfiable() {
    let validator = PatternQueryValidator::new();
    let pattern = parse(r#"[a, b] /\ [c, d, e]"#);
    let result = validator.validate_pattern_satisfiability(pattern);
    assert!(matches!(result, Err(ValidationError::UnsatisfiablePattern { .. })), "{:?}", result);
}

#[test]
fn new_binds_its_use_and_marks_it_used() {
    let (db, root) = resolved("new x in { x!(Nil) }");
    assert!(db.diagnostics().is_empty());
    let scope = db.get_scope(root).unwrap();
    assert_eq!(scope.num_binders(), 1);
    assert!(scope.all_used());
    let body = match &db.proc_at(root).proc {
        Proc::New { proc, .. } => &**proc,
        _ => panic!("Not a new"),
    };
    assert_eq!(db.binder_of_id(send_channel_id(body)), Some(VarBinding::Bound(BinderId(0))));
}

#[test]
fn wildcard_outside_a_pattern_is_rejected() {
    let (db, root) = resolved("_");
    let ds = db.diagnostics();
    assert_eq!(ds.len(), 1);
    assert_eq!(ds[0].pid, root);
    assert!(matches!(ds[0].kind, DiagnosticKind::Error(ErrorKind::ConnectiveOutsidePattern)));
    assert_eq!(ds[0].exact_position, None);
    assert!(!db.is_scoped(root));
    assert_eq!(db.next_binder(), BinderId(0));
}

#[test]
fn repeated_pattern_variable_gets_one_binder() {
    let (db, _) = resolved("match [1, 1] { [x, x] => Nil }");
    assert_eq!(db.next_binder(), BinderId(1));
    let bound = db.bound_positions();
    assert_eq!(bound.len(), 2);
    assert_eq!(bound[0].binding, VarBinding::Free { index: 0 });
    assert_eq!(bound[1].binding, VarBinding::Bound(BinderId(0)));
    assert!(db.diagnostics().is_empty());
}

#[test]
fn unbound_use_is_reported_at_its_site() {
    let (db, root) = resolved("x");
    let ds = db.diagnostics();
    assert_eq!(ds.len(), 1);
    assert_eq!(ds[0].pid, root);
    assert!(matches!(ds[0].kind, DiagnosticKind::Error(ErrorKind::UnboundVariable)));
    assert_eq!(ds[0].exact_position, Some(at_col(1)));
}

#[test]
fn decimal_texts() {
    assert_eq!(i64_to_string(0), "0");
    assert_eq!(i64_to_string(-42), "-42");
    assert_eq!(i64_to_string(i64::MIN), "-9223372036854775808");
    assert_eq!(i64_to_string(i64::MAX), "9223372036854775807");
    assert_eq!(usize_to_string(1234567), "1234567");
    assert_eq!(u32_to_string(10), "10");
    assert_eq!(u32_to_string(u32::MAX), "4294967295");
}

#[test]
fn scope_from_parts_ignores_stray_capture_bits() {
    // Bit 4 lies past the set's length of 4.
    let captures = FixedBitSet::with_capacity_and_blocks(4, vec![0b10000]);
    let free = BitList::from_bools(&vec![true, false]);
    let scope = ScopeInfo::from_parts(BinderId(4), free, captures, origin_span(1));
    assert_eq!(scope.num_binders(), 2);
    assert_eq!(scope.num_free(), 1);
    assert_eq!(scope.num_captures(), 0);
    assert!(scope.captures().is_empty());
    assert!(!scope.is_ground());
    let mut grown = ScopeInfo::from_parts(
        BinderId(8),
        BitList::from_bools(&vec![]),
        FixedBitSet::with_capacity_and_blocks(4, vec![0b10000]),
        origin_span(1),
    );
    assert!(grown.is_ground());
    grown.mark_captured(BinderId(1));
    assert_eq!(grown.captures(), vec![BinderId(1)]);
}

#[test]
fn bit_list_from_bools_sets_uses() {
    let mut scope = ScopeInfo::new(BinderId(0), 3, origin_span(1));
    scope.set_uses(BitList::from_bools(&vec![true, false, true]));
    assert_eq!(scope.unused(), vec![BinderId(1)]);
    assert!(!scope.all_used());
}

#[test]
fn resolvable_symbols_are_the_interned_ones() {
    let mut db = SemanticDb::new();
    let a = db.intern("a");
    let b = db.intern("b");
    let again = db.intern("a");
    assert_eq!(a, again);
    assert_eq!(a, Symbol(0));
    assert_eq!(b, Symbol(1));
    assert_eq!(db.resolve_symbol(a), Some("a"));
    assert_eq!(db.resolve_symbol(b), Some("b"));
    assert_eq!(db.resolve_symbol(Symbol(2)), None);
}

#[test]
fn name_declared_twice_in_one_new_is_a_duplicate() {
    let (db, root) = resolved("new x, x in { Nil }");
    assert_eq!(db.get_scope(root).unwrap().num_binders(), 2);
    let ds = db.diagnostics();
    assert_eq!(ds.len(), 1);
    let first = db.binder(BinderId(0));
    let second = db.binder(BinderId(1));
    assert_eq!(ds[0].pid, root);
    assert!(matches!(
        ds[0].kind,
        DiagnosticKind::Error(ErrorKind::DuplicateVarDef { original }) if original == SymbolOccurrence::from_binder(&first)
    ));
    assert_eq!(ds[0].exact_position, Some(second.source_position));
}

#[test]
fn inner_new_shadows_outer_new() {
    let (db, root) = resolved("new x in { new x in { x!(Nil) } | x!(Nil) }");
    assert_eq!(db.next_binder(), BinderId(2));
    let bound = db.bound_positions();
    assert_eq!(bound.len(), 2);
    assert_eq!(bound[0].binding, VarBinding::Bound(BinderId(1)));
    assert_eq!(bound[1].binding, VarBinding::Bound(BinderId(0)));
    assert!(db.get_scope(root).unwrap().all_used());
}

#[test]
fn send_channel_resolves_in_the_enclosing_new() {
    let (db, _) = resolved("new ch in { ch!(Nil) | ch!(Nil) }");
    let bound = db.bound_positions();
    assert_eq!(bound.len(), 2);
    assert!(bound.iter().all(|b| b.binding == VarBinding::Bound(BinderId(0))));
    assert!(db.diagnostics().is_empty());
}

/// `match 1 { <pattern> => Nil }`, indexed and resolved.
fn resolved_match_on(pattern: Proc) -> (SemanticDb<'static>, PID) {
    let p = |proc: Proc, c: usize| ann(proc, at_col(c), at_col(c + 1));
    let root = p(
        Proc::Match {
            expression: Box::new(p(Proc::LongLiteral(1), 7)),
            cases: vec![librho::ast::Case { pattern: p(pattern, 11), proc: p(Proc::Nil, 20) }],
        },
        1,
    );
    let root: &'static AnnProc = Box::leak(Box::new(root));
    let mut db = SemanticDb::new();
    let pid = db.build_index(root);
    ResolverPass::new(pid).run(&mut db);
    (db, pid)
}

#[test]
fn arithmetic_at_the_top_of_a_pattern_is_warned_about() {
    let x = Id { name: "x".to_string(), pos: at_col(11) };
    let sum = Proc::BinaryExp {
        op: BinaryExpOp::Add,
        left: Box::new(ann(Proc::ProcVar(Var::Id(x)), at_col(11), at_col(12))),
        right: Box::new(ann(Proc::LongLiteral(1), at_col(15), at_col(16))),
    };
    let (db, _) = resolved_match_on(sum);
    let ds = db.diagnostics();
    assert_eq!(ds.len(), 1);
    assert!(matches!(ds[0].kind, DiagnosticKind::Warning(WarningKind::TopLevelPatternExpr { .. })));
    let bound = db.bound_positions();
    assert_eq!(bound.len(), 1);
    assert_eq!(bound[0].binding, VarBinding::Free { index: 0 });
}

#[test]
fn bundle_inside_a_pattern_is_an_error_and_is_not_entered() {
    let x = Id { name: "x".to_string(), pos: at_col(19) };
    let bundle = Proc::Bundle {
        bundle_type: librho::ast::BundleType::BundleReadWrite,
        proc: Box::new(ann(Proc::ProcVar(Var::Id(x)), at_col(19), at_col(20))),
    };
    let (db, _) = resolved_match_on(bundle);
    let ds = db.diagnostics();
    assert_eq!(ds.len(), 1);
    assert!(matches!(ds[0].kind, DiagnosticKind::Error(ErrorKind::BundleInsidePattern)));
    assert_eq!(ds[0].exact_position, Some(at_col(11)));
    assert!(db.bound_positions().is_empty());
    assert_eq!(db.next_binder(), BinderId(0));
}
