//! The parts of a parsed Nomo source file that inlay hints read: statement
//! structure, the shape of `let` initializers, and the parameter names of the
//! functions the file declares.
use vstd::prelude::*;
use vstd::string::*;

verus! {

/// Binary operators.
#[derive(Clone, Copy, Debug, PartialEq, Eq, Structural)]
pub enum BinaryOp {
    Equal,
    NotEqual,
    Less,
    LessEqual,
    Greater,
    GreaterEqual,
    LogicalAnd,
    LogicalOr,
    Add,
    Subtract,
    Multiply,
    Divide,
    Remainder,
    BitOr,
    BitXor,
    ShiftLeft,
    ShiftRight,
    BitAnd,
    BitAndNot,
}

/// A written type: a dotted path with optional type arguments.
#[derive(Debug)]
pub struct TypeRef {
    pub path: Vec<String>,
    pub args: Vec<TypeRef>,
}

/// An expression, as far as its type can be read off syntactically.
#[derive(Debug)]
pub enum Expr {
    String,
    Int,
    Float,
    Char,
    Bool,
    StructLiteral { path: Vec<String> },
    Cast { target: TypeRef },
    Unary { expr: Box<Expr> },
    Binary { left: Box<Expr>, op: BinaryOp, right: Box<Expr> },
    If { then_branch: Box<Expr>, else_branch: Box<Expr> },
    /// The values of a `match` expression's arms.
    Match { arms: Vec<Expr> },
    /// Calls, names, `?`, `mut` arguments, `panic` and `void`: nothing to infer.
    Opaque,
}

/// Where a statement starts (one-based line, one-based byte column) and the text of
/// the line it starts on.
#[derive(Debug)]
pub struct Span {
    pub line: usize,
    pub column: usize,
    pub text: String,
}

/// A statement, as far as inlay hints look into it.
#[derive(Debug)]
pub enum Stmt {
    Let { name: String, annotated: bool, value: Expr, span: Span },
    LetElse { else_body: Vec<Stmt> },
    IfLet { body: Vec<Stmt>, else_body: Option<Vec<Stmt>> },
    /// The bodies of a statement-level `match`'s arms.
    Match { arms: Vec<Vec<Stmt>> },
    /// The body of any `for` loop form.
    For { body: Vec<Stmt> },
    Defer { stmt: Box<Stmt> },
    Unsafe { body: Vec<Stmt> },
    /// Assignments, postfix updates, returns, expression statements, `break`, `continue`.
    Simple,
}

/// A declared function or method with its parameter names in order.
#[derive(Debug)]
pub struct FunctionDecl {
    pub name: String,
    pub params: Vec<String>,
    pub body: Vec<Stmt>,
}

/// What a parsed file contributes to inlay hints.
#[derive(Debug)]
pub struct SourceFile {
    pub functions: Vec<FunctionDecl>,
    /// Functions of `extern` blocks (their bodies are empty).
    pub extern_functions: Vec<FunctionDecl>,
    /// Methods declared by interfaces (their bodies are empty).
    pub interface_methods: Vec<FunctionDecl>,
    /// Methods of `impl` blocks.
    pub impl_methods: Vec<FunctionDecl>,
    pub script_body: Vec<Stmt>,
}

/// `parts` joined with `sep` between consecutive parts.
pub open spec fn joined(parts: Seq<Seq<char>>, sep: Seq<char>) -> Seq<char>
    decreases parts.len(),
{
    if parts.len() == 0 {
        Seq::empty()
    } else if parts.len() == 1 {
        parts[0]
    } else {
        joined(parts.drop_last(), sep) + sep + parts.last()
    }
}

/// Views of a list of strings.
pub open spec fn views(v: Seq<String>) -> Seq<Seq<char>> {
    v.map_values(|s: String| s@)
}

/// `parts.join(sep)`.
pub fn join_strings(parts: &Vec<String>, sep: &str) -> (r: String)
    ensures
        r@ == joined(views(parts@), sep@),
{
    let mut r = String::new();
    let mut i: usize = 0;
    while i < parts.len()
        invariant
            i <= parts.len(),
            r@ == joined(views(parts@).take(i as int), sep@),
        decreases parts.len() - i,
    {
        proof {
            let t = views(parts@).take(i + 1);
            assert(t.drop_last() =~= views(parts@).take(i as int));
            assert(t.last() == parts@[i as int]@);
        }
        if i > 0 {
            r.append(sep);
        } else {
            assert(views(parts@).take(0) =~= Seq::<Seq<char>>::empty());
        }
        r.append(parts[i].as_str());
        i = i + 1;
    }
    assert(views(parts@).take(parts.len() as int) =~= views(parts@));
    r
}

/// The written form of a type: its path joined with dots, followed by its type
/// arguments in angle brackets, separated by `", "`.
pub open spec fn type_label(t: TypeRef) -> Seq<char>
    decreases t, 1nat,
{
    if t.args@.len() == 0 {
        joined(views(t.path@), "."@)
    } else {
        joined(views(t.path@), "."@) + "<"@ + joined(type_labels(t.args@), ", "@) + ">"@
    }
}

/// The written forms of several types.
pub open spec fn type_labels(args: Seq<TypeRef>) -> Seq<Seq<char>>
    decreases args, 0nat,
{
    if args.len() == 0 {
        Seq::empty()
    } else {
        type_labels(args.drop_last()).push(type_label(args.last()))
    }
}

/// The written form of `type_ref` (see [`type_label`]).
pub fn type_ref_label(type_ref: &TypeRef) -> (r: String)
    ensures
        r@ == type_label(*type_ref),
    decreases type_ref, 1nat,
{
    let path = join_strings(&type_ref.path, ".");
    if type_ref.args.len() == 0 {
        return path;
    }
    let mut labels: Vec<String> = Vec::new();
    let mut i: usize = 0;
    while i < type_ref.args.len()
        invariant
            i <= type_ref.args.len(),
            views(labels@) == type_labels(type_ref.args@.take(i as int)),
        decreases type_ref.args.len() - i,
    {
        assert(decreases_to!(*type_ref => type_ref.args@[i as int]));
        let label = type_ref_label(&type_ref.args[i]);
        let ghost before = labels@;
        labels.push(label);
        proof {
            let t = type_ref.args@.take(i + 1);
            assert(t.drop_last() =~= type_ref.args@.take(i as int));
            assert(views(labels@) =~= views(before).push(label@));
        }
        i = i + 1;
    }
    assert(type_ref.args@.take(type_ref.args.len() as int) =~= type_ref.args@);
    let mut r = path;
    r.append("<");
    let inner = join_strings(&labels, ", ");
    r.append(inner.as_str());
    r.append(">");
    r
}

} // verus!
