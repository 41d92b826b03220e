//! The syntax tree that the cleanup passes rewrite.
//!
//! A tree is made of nodes of one shape: a kind, a text (a name, an
//! operator, a pattern or the source of a literal, where the kind has one)
//! and an ordered list of children. Each kind fixes how its children are
//! laid out; the layouts are listed on the variants of [`Kind`].
use vstd::prelude::*;


verus! {

/// The kind of a syntax node, with the layout of its children.
#[derive(Clone, Copy, Debug, PartialEq, Eq, Structural)]
pub enum Kind {
    // ----- expressions -----
    /// `callee(args..)`: children are the callee, then the arguments.
    Call,
    /// `receiver.text(args..)`: children are the receiver, then the arguments.
    MethodCall,
    /// `[items..]`
    Array,
    /// `(items..)`
    Tuple,
    /// A block used as an expression: one child, the block.
    BlockExpr,
    /// `loop block`: one child, the block.
    Loop,
    /// `unsafe block`: one child, the block.
    Unsafe,
    /// `if cond then else`: children are the condition, the then block and,
    /// when there is one, the else block.
    If,
    /// `if let text = value then else`: children are the value, the then
    /// block and, when there is one, the else block.
    IfLet,
    /// `match scrutinee { arms.. }`: children are the scrutinee, then the arms.
    Match,
    /// `&inner`: one child.
    Reference { mutable: bool, raw: bool },
    /// `text inner` for a prefix operator `text`: one child.
    UnaryOp,
    /// `inner.await`: one child.
    Await,
    /// `(inner)`: one child.
    Parenthesized,
    /// `inner as ty`: children are the expression and the type.
    Cast,
    /// `|params..| body`: children are the body, then the parameters.
    Closure { moves: bool },
    /// `|params..| -> ret body`: children are the body, the return type, then
    /// the typed parameters.
    TypedClosure { moves: bool },
    /// `base[index]`
    Index,
    /// `left = right`
    Assign,
    /// `left text right` for a binary operator `text`.
    BinaryOp,
    /// A thread-builder chain: children are its steps.
    BuilderChain,
    /// A builder step that spawns: one child, the closure.
    Spawn,
    /// A builder step named `text`: no children.
    NamedStep,
    /// The identifier `text`.
    Ident,
    /// The macro invocation `text`, kept as source.
    Macro,
    /// A path: children are its segments. `member` paths join with `.`,
    /// the others with `::`.
    Path { member: bool },
    /// The path segment `text`.
    Segment,
    /// A Boolean literal.
    Bool(bool),
    /// Any other literal, kept as its source `text`.
    Literal,
    // ----- blocks and statements -----
    /// A block: children are its statements, the last of which may be a
    /// `Tail`.
    Block,
    /// The tail expression of a block: one child.
    Tail,
    /// `let text: ty = init;`: children are the type and the initializer,
    /// each `Absent` where the statement has none.
    Let { mutable: bool },
    /// An expression statement: one child.
    ExprStmt,
    /// An item statement: one child, the item.
    ItemStmt,
    Continue,
    Break,
    /// A comment holding `text`.
    Comment,
    /// A `match` arm with pattern `text`: children are the guard (or
    /// `Absent`) and the body block.
    Arm,
    /// A closure parameter named `text`: no children, or one, its type.
    ClosureParam,
    /// A typed closure or function parameter named `text`: one child, its type.
    Param,
    /// An omitted optional part.
    Absent,
    // ----- types -----
    /// The type named `text`.
    TypeNamed,
    /// A path type: children are its segments.
    TypePath,
    TypeUnit,
    TypeNever,
    /// `text<args..>`: children are the arguments.
    TypeGeneric,
    /// A callable trait type `dyn text(args..) -> ret` (`impl` when not
    /// `dynamic`): children are the argument types, then the return type.
    TypeCallable { dynamic: bool },
    /// `&inner` when `shared`, a raw pointer otherwise: one child.
    TypeRef { shared: bool, mutable: bool },
    /// `[inner]`: one child.
    TypeSlice,
    /// `[inner; text]`: one child.
    TypeArray,
    /// `(types..)`
    TypeTuple,
    // ----- items -----
    /// A module named `text`: children are its items, then its doc lines and
    /// attributes.
    Module,
    /// A function named `text`: children are its visibility, its return type,
    /// its `Generics`, its `Params`, its body block, then doc lines and
    /// attributes.
    Function { asyncness: bool },
    /// The generic parameters of a function or an impl: children are `Generic`s.
    Generics,
    /// A generic parameter named `text`: children are its `Bound`s.
    Generic,
    /// The bound `text` of a generic parameter.
    Bound,
    /// The parameters of a function: children are `Param`s.
    Params,
    /// An impl block: children are its `Generics`, its target type, its
    /// trait (or `Absent`), then its items.
    Impl,
    /// An associated constant named `text`: children are its type and value.
    AssocConst,
    /// An associated type named `text`: one child, the type.
    AssocType,
    /// A constant named `text`: children are its visibility, type, value,
    /// then doc lines.
    Const,
    /// A lazily initialised static named `text`: children are its
    /// visibility, its type and its initializer block.
    LazyStatic,
    /// A struct named `text`: children are its visibility, its `Generics`,
    /// then its `Field`s.
    Struct,
    /// A union named `text`, laid out as a struct.
    Union,
    /// A field named `text`: children are its visibility and its type.
    Field,
    /// An enum named `text`: children are its visibility, its `Generics`,
    /// then its `Variant`s.
    Enum,
    /// A variant named `text`: children are the types of its fields.
    Variant,
    /// A type alias named `text`: children are its visibility, its
    /// `Generics` and its target type.
    TypeAlias,
    /// A `use` item, kept as its source `text`.
    Use,
    /// An item kept as its source `text`.
    Raw,
    /// The visibility `text` (empty for private items).
    Visibility,
    /// A doc line `text`.
    Doc,
    /// An attribute `text`.
    Attr,
    /// An item that no pass looks into, found again by its handle.
    Opaque(u64),
}

/// A syntax node.
#[derive(Debug)]
pub struct Node {
    pub kind: Kind,
    pub text: String,
    pub children: Nodes,
}

/// A list of syntax nodes.
#[derive(Debug)]
pub enum Nodes {
    Nil,
    Cons(Box<Node>, Box<Nodes>),
}

} // verus!
