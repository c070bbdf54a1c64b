use vstd::prelude::*;

use crate::ast::{
    expr_span, expr_strings_below, shown_type_name, AssignTarget, BinaryOp, CallTarget, CapabilityDecl, Expr,
    FuncDecl, FuncParam, Item, Program, RightDecl, Stmt, UnaryOp, ValueType, VarDecl,
};
use crate::diagnostics::{clean, error_at, error_count, extends, has_error, DiagnosticView, Diagnostics};
use crate::module_system::{join, join_strings, string_views, ModuleRegistry};
use crate::names::{lookup, NameMap};
use crate::span::Span;
use crate::string_interp::{parse_segments, segments_spec, segments_view, Segment, SegmentView};
use crate::text::{
    char_count, chars_ascii_lower, contains_char_seq, decimal, push_str, seq_ascii_lower, seq_contains,
    str_eq, string_of, to_chars, usize_to_string,
};

verus! {

/// The two kinds of access that capabilities and rights govern.
#[derive(Clone, Copy, Debug, PartialEq, Eq, Structural)]
pub enum Operation {
    Read,
    Write,
}

// ---------------------------------------------------------------------------
// Permission atoms
// ---------------------------------------------------------------------------

/// An atom denies when it mentions `forbid`, `deny` or `no_`, or starts with `!`
/// (letter case aside).
pub open spec fn atom_denies(a: Seq<char>) -> bool {
    let l = seq_ascii_lower(a);
    seq_contains(l, "forbid"@) || seq_contains(l, "deny"@) || seq_contains(l, "no_"@) || (
    l.len() > 0 && l[0] == '!')
}

/// An atom is about all access when it mentions `all` or `full`.
pub open spec fn atom_all(a: Seq<char>) -> bool {
    let l = seq_ascii_lower(a);
    seq_contains(l, "all"@) || seq_contains(l, "full"@)
}

pub open spec fn atom_read(a: Seq<char>) -> bool {
    seq_contains(seq_ascii_lower(a), "read"@)
}

pub open spec fn atom_write(a: Seq<char>) -> bool {
    seq_contains(seq_ascii_lower(a), "write"@)
}

pub open spec fn atom_recognized(a: Seq<char>) -> bool {
    atom_all(a) || atom_read(a) || atom_write(a)
}

/// Some atom is about the access that `about` picks and denies (or allows) it.
pub open spec fn some_atom(atoms: Seq<String>, about: spec_fn(Seq<char>) -> bool, deny: bool) -> bool {
    exists|i: int| 0 <= i < atoms.len() && about(atoms[i]@) && atom_denies(atoms[i]@) == deny
}

/// Whether atoms permit an operation: nothing denies all access or this operation,
/// and something allows all access or this operation.
pub open spec fn atoms_permit(atoms: Seq<String>, op: Operation) -> bool {
    let kind = match op {
        Operation::Read => |a: Seq<char>| atom_read(a),
        Operation::Write => |a: Seq<char>| atom_write(a),
    };
    &&& !some_atom(atoms, |a: Seq<char>| atom_all(a), true)
    &&& !some_atom(atoms, kind, true)
    &&& (some_atom(atoms, |a: Seq<char>| atom_all(a), false) || some_atom(atoms, kind, false))
}

/// An atom that mentions `forbid`, `deny` or `no_`, or starts with `!` (letter
/// case aside), and is about all access or about an operation, takes that
/// operation away, whatever the other atoms say.
pub proof fn lemma_denying_atom_takes_away(atoms: Seq<String>, i: int, op: Operation)
    requires
        0 <= i < atoms.len(),
        ({
            let l = seq_ascii_lower(atoms[i]@);
            &&& seq_contains(l, "forbid"@) || seq_contains(l, "deny"@) || seq_contains(l, "no_"@) || (l.len() > 0
                && l[0] == '!')
            &&& seq_contains(l, "all"@) || seq_contains(l, "full"@) || (op == Operation::Read && seq_contains(l, "read"@))
                || (op == Operation::Write && seq_contains(l, "write"@))
        }),
    ensures
        !atoms_permit(atoms, op),
{
    let l = seq_ascii_lower(atoms[i]@);
    if seq_contains(l, "all"@) || seq_contains(l, "full"@) {
        assert(some_atom(atoms, |a: Seq<char>| atom_all(a), true));
    } else if op == Operation::Read {
        assert(some_atom(atoms, |a: Seq<char>| atom_read(a), true));
    } else {
        assert(some_atom(atoms, |a: Seq<char>| atom_write(a), true));
    }
}

/// An atom that mentions `all`, `full` or the operation and does not deny
/// grants the operation, unless some atom takes it away.
pub proof fn lemma_allowing_atom_grants(atoms: Seq<String>, i: int, op: Operation)
    requires
        0 <= i < atoms.len(),
        ({
            let l = seq_ascii_lower(atoms[i]@);
            seq_contains(l, "all"@) || seq_contains(l, "full"@) || (op == Operation::Read && seq_contains(l, "read"@))
                || (op == Operation::Write && seq_contains(l, "write"@))
        }),
        !atom_denies(atoms[i]@),
        forall|j: int| 0 <= j < atoms.len() ==> !atom_denies(#[trigger] atoms[j]@),
    ensures
        atoms_permit(atoms, op),
{
    let l = seq_ascii_lower(atoms[i]@);
    if seq_contains(l, "all"@) || seq_contains(l, "full"@) {
        assert(some_atom(atoms, |a: Seq<char>| atom_all(a), false));
    } else if op == Operation::Read {
        assert(some_atom(atoms, |a: Seq<char>| atom_read(a), false));
    } else {
        assert(some_atom(atoms, |a: Seq<char>| atom_write(a), false));
    }
}

/// The warnings for atoms that concern neither read, write nor all access.
pub open spec fn unrecognized_warnings(atoms: Seq<String>) -> Seq<Seq<char>>
    decreases atoms.len(),
{
    if atoms.len() == 0 {
        Seq::empty()
    } else {
        let w = unrecognized_warnings(atoms.drop_last());
        let a = atoms.last()@;
        if atom_recognized(a) {
            w
        } else {
            w.push(
                "Permission '"@ + a + "' does not affect read/write/all and will be ignored"@,
            )
        }
    }
}

/// All warnings that a list of atoms gives: the unrecognized atoms, then the
/// conflicts between allowing and denying reads, then writes.
pub open spec fn permission_warnings(atoms: Seq<String>) -> Seq<Seq<char>> {
    let read_conflict = some_atom(atoms, |a: Seq<char>| atom_read(a), false) && some_atom(
        atoms,
        |a: Seq<char>| atom_read(a),
        true,
    );
    let write_conflict = some_atom(atoms, |a: Seq<char>| atom_write(a), false) && some_atom(
        atoms,
        |a: Seq<char>| atom_write(a),
        true,
    );
    unrecognized_warnings(atoms) + (if read_conflict {
        seq!["Conflicting permissions: both allow read and deny read"@]
    } else {
        Seq::empty()
    }) + (if write_conflict {
        seq!["Conflicting permissions: both allow write and deny write"@]
    } else {
        Seq::empty()
    })
}

/// What a capability or right allows, read from its permission atoms.
#[derive(Debug)]
pub struct PermissionSet {
    pub raw: Vec<String>,
    allow_read: bool,
    allow_write: bool,
    allow_all: bool,
    deny_read: bool,
    deny_write: bool,
    deny_all: bool,
}

impl PermissionSet {
    /// The atoms the set was read from.
    pub closed spec fn atoms(&self) -> Seq<String> {
        self.raw@
    }

    /// Whether the set allows an operation.
    pub closed spec fn permits(&self, op: Operation) -> bool {
        if self.deny_all {
            false
        } else {
            match op {
                Operation::Read => !self.deny_read && (self.allow_all || self.allow_read),
                Operation::Write => !self.deny_write && (self.allow_all || self.allow_write),
            }
        }
    }

    /// Reads permission atoms; gives the set and the warnings about the atoms.
    pub fn from_atoms(atoms: Vec<String>) -> (r: (PermissionSet, Vec<String>))
        ensures
            r.0.atoms() == atoms@,
            forall|op: Operation| #[trigger] r.0.permits(op) == atoms_permit(atoms@, op),
            string_views(r.1@) == permission_warnings(atoms@),
    {
        let mut warnings: Vec<String> = Vec::new();
        let mut allow_read = false;
        let mut allow_write = false;
        let mut allow_all = false;
        let mut deny_read = false;
        let mut deny_write = false;
        let mut deny_all = false;
        let mut i: usize = 0;
        while i < atoms.len()
            invariant
                i <= atoms@.len(),
                allow_read == some_atom(atoms@.take(i as int), |a: Seq<char>| atom_read(a), false),
                deny_read == some_atom(atoms@.take(i as int), |a: Seq<char>| atom_read(a), true),
                allow_write == some_atom(atoms@.take(i as int), |a: Seq<char>| atom_write(a), false),
                deny_write == some_atom(atoms@.take(i as int), |a: Seq<char>| atom_write(a), true),
                allow_all == some_atom(atoms@.take(i as int), |a: Seq<char>| atom_all(a), false),
                deny_all == some_atom(atoms@.take(i as int), |a: Seq<char>| atom_all(a), true),
                string_views(warnings@) == unrecognized_warnings(atoms@.take(i as int)),
            decreases atoms.len() - i,
        {
            let atom = &atoms[i];
            let c = classify_atom(atom.as_str());
            let ghost prev = atoms@.take(i as int);
            let ghost next = atoms@.take(i + 1);
            proof {
                assert(next.drop_last() =~= prev);
                assert(next.last() == atoms@[i as int]);
                lemma_some_atom_push(prev, atoms@[i as int], |a: Seq<char>| atom_read(a));
                lemma_some_atom_push(prev, atoms@[i as int], |a: Seq<char>| atom_write(a));
                lemma_some_atom_push(prev, atoms@[i as int], |a: Seq<char>| atom_all(a));
                assert(next =~= prev.push(atoms@[i as int]));
            }
            if c.all {
                if c.deny {
                    deny_all = true;
                } else {
                    allow_all = true;
                }
            }
            if c.read {
                if c.deny {
                    deny_read = true;
                } else {
                    allow_read = true;
                }
            }
            if c.write {
                if c.deny {
                    deny_write = true;
                } else {
                    allow_write = true;
                }
            }
            if !c.all && !c.read && !c.write {
                let mut message = string_of("Permission '");
                push_str(&mut message, atom.as_str());
                push_str(&mut message, "' does not affect read/write/all and will be ignored");
                let ghost before = string_views(warnings@);
                let ghost m = message@;
                warnings.push(message);
                assert(string_views(warnings@) =~= before.push(m));
            }
            i += 1;
        }
        proof {
            assert(atoms@.take(atoms@.len() as int) =~= atoms@);
        }
        let ghost base = string_views(warnings@);
        if allow_read && deny_read {
            warnings.push(string_of("Conflicting permissions: both allow read and deny read"));
        }
        let ghost mid = string_views(warnings@);
        if allow_write && deny_write {
            warnings.push(string_of("Conflicting permissions: both allow write and deny write"));
        }
        proof {
            let rc = if allow_read && deny_read {
                seq!["Conflicting permissions: both allow read and deny read"@]
            } else {
                Seq::empty()
            };
            let wc = if allow_write && deny_write {
                seq!["Conflicting permissions: both allow write and deny write"@]
            } else {
                Seq::empty()
            };
            assert(mid =~= base + rc);
            assert(string_views(warnings@) =~= mid + wc);
        }
        let set = PermissionSet {
            raw: atoms,
            allow_read,
            allow_write,
            allow_all,
            deny_read,
            deny_write,
            deny_all,
        };
        (set, warnings)
    }

    /// Whether the set allows an operation.
    pub fn allows(&self, operation: Operation) -> (b: bool)
        ensures
            b == self.permits(operation),
    {
        if self.deny_all {
            return false;
        }
        match operation {
            Operation::Read => {
                if self.deny_read {
                    return false;
                }
                self.allow_all || self.allow_read
            },
            Operation::Write => {
                if self.deny_write {
                    return false;
                }
                self.allow_all || self.allow_write
            },
        }
    }

    /// A copy of this set.
    pub fn duplicate(&self) -> (r: PermissionSet)
        ensures
            r.atoms() == self.atoms(),
            forall|op: Operation| #[trigger] r.permits(op) == self.permits(op),
    {
        PermissionSet {
            raw: clone_strings(&self.raw),
            allow_read: self.allow_read,
            allow_write: self.allow_write,
            allow_all: self.allow_all,
            deny_read: self.deny_read,
            deny_write: self.deny_write,
            deny_all: self.deny_all,
        }
    }
}

proof fn lemma_some_atom_push(atoms: Seq<String>, a: String, about: spec_fn(Seq<char>) -> bool)
    ensures
        some_atom(atoms.push(a), about, true) == (some_atom(atoms, about, true) || (about(a@)
            && atom_denies(a@))),
        some_atom(atoms.push(a), about, false) == (some_atom(atoms, about, false) || (about(a@)
            && !atom_denies(a@))),
{
    let p = atoms.push(a);
    assert(p[atoms.len() as int] == a);
    assert forall|i: int| 0 <= i < atoms.len() implies p[i] == atoms[i] by {}
    if some_atom(p, about, true) {
        let i = choose|i: int| 0 <= i < p.len() && about(p[i]@) && atom_denies(p[i]@) == true;
        if i < atoms.len() {
            assert(atoms[i] == p[i]);
        }
    }
    if some_atom(p, about, false) {
        let i = choose|i: int| 0 <= i < p.len() && about(p[i]@) && atom_denies(p[i]@) == false;
        if i < atoms.len() {
            assert(atoms[i] == p[i]);
        }
    }
    if some_atom(atoms, about, true) {
        let i = choose|i: int| 0 <= i < atoms.len() && about(atoms[i]@) && atom_denies(atoms[i]@) == true;
        assert(p[i] == atoms[i]);
    }
    if some_atom(atoms, about, false) {
        let i = choose|i: int| 0 <= i < atoms.len() && about(atoms[i]@) && atom_denies(atoms[i]@) == false;
        assert(p[i] == atoms[i]);
    }
}

struct AtomClass {
    deny: bool,
    all: bool,
    read: bool,
    write: bool,
}

fn classify_atom(atom: &str) -> (c: AtomClass)
    ensures
        c.deny == atom_denies(atom@),
        c.all == atom_all(atom@),
        c.read == atom_read(atom@),
        c.write == atom_write(atom@),
{
    let chars = to_chars(atom);
    let lowered = chars_ascii_lower(&chars);
    let deny = contains_char_seq(&lowered, "forbid") || contains_char_seq(&lowered, "deny")
        || contains_char_seq(&lowered, "no_") || (lowered.len() > 0 && lowered[0] == '!');
    let all = contains_char_seq(&lowered, "all") || contains_char_seq(&lowered, "full");
    let read = contains_char_seq(&lowered, "read");
    let write = contains_char_seq(&lowered, "write");
    AtomClass { deny, all, read, write }
}

/// A copy of a list of strings.
pub fn clone_strings(v: &Vec<String>) -> (r: Vec<String>)
    ensures
        r@ == v@,
{
    let mut r: Vec<String> = Vec::new();
    let mut i: usize = 0;
    while i < v.len()
        invariant
            i <= v@.len(),
            r@ == v@.take(i as int),
        decreases v.len() - i,
    {
        r.push(v[i].clone());
        assert(v@.take(i + 1) =~= v@.take(i as int).push(v@[i as int]));
        i += 1;
    }
    assert(v@.take(v@.len() as int) =~= v@);
    r
}

/// A capability or right declared without atoms allows nothing.
pub proof fn lemma_no_atoms_allow_nothing(atoms: Seq<String>, op: Operation)
    requires
        atoms.len() == 0,
    ensures
        !atoms_permit(atoms, op),
{
}

/// An atom that denies an operation, or all access, forbids that operation
/// whatever the other atoms say.
pub proof fn lemma_denying_atom_wins(atoms: Seq<String>, i: int, op: Operation)
    requires
        0 <= i < atoms.len(),
        atom_denies(atoms[i]@),
        atom_all(atoms[i]@) || match op {
            Operation::Read => atom_read(atoms[i]@),
            Operation::Write => atom_write(atoms[i]@),
        },
    ensures
        !atoms_permit(atoms, op),
{
    if atom_all(atoms[i]@) {
        assert(some_atom(atoms, |a: Seq<char>| atom_all(a), true));
    } else {
        match op {
            Operation::Read => assert(some_atom(atoms, |a: Seq<char>| atom_read(a), true)),
            Operation::Write => assert(some_atom(atoms, |a: Seq<char>| atom_write(a), true)),
        }
    }
}

// ---------------------------------------------------------------------------
// Types
// ---------------------------------------------------------------------------

pub open spec fn spec_is_numeric(t: ValueType) -> bool {
    t == ValueType::Int || t == ValueType::Float
}

/// Whether a value of type `source` may be stored where `target` is expected: the
/// same type, an int where a float is expected, or arrays whose element types are
/// so related.
pub open spec fn assignable(target: ValueType, source: ValueType) -> bool
    decreases target,
{
    if target == source {
        true
    } else if target == ValueType::Float && source == ValueType::Int {
        true
    } else {
        match (target, source) {
            (ValueType::Array(t), ValueType::Array(s)) => assignable(*t, *s),
            _ => false,
        }
    }
}

/// The type of a binary operation on operands of the given types, when the
/// operation is allowed on them.
pub open spec fn binary_type(op: BinaryOp, left: ValueType, right: ValueType) -> Option<ValueType> {
    match op {
        BinaryOp::Add | BinaryOp::Sub | BinaryOp::Mul | BinaryOp::Div | BinaryOp::Mod => {
            if spec_is_numeric(left) && spec_is_numeric(right) {
                if left == ValueType::Float || right == ValueType::Float {
                    Some(ValueType::Float)
                } else {
                    Some(ValueType::Int)
                }
            } else {
                None
            }
        },
        BinaryOp::Eq | BinaryOp::NotEq => {
            if left == right || (spec_is_numeric(left) && spec_is_numeric(right)) {
                Some(ValueType::Bool)
            } else {
                None
            }
        },
        BinaryOp::Greater | BinaryOp::GreaterEq | BinaryOp::Less | BinaryOp::LessEq => {
            if spec_is_numeric(left) && spec_is_numeric(right) {
                Some(ValueType::Bool)
            } else {
                None
            }
        },
        BinaryOp::And | BinaryOp::Or => {
            if left == ValueType::Bool && right == ValueType::Bool {
                Some(ValueType::Bool)
            } else {
                None
            }
        },
    }
}

/// The common type of two branches or array elements: the type itself when both
/// agree, float when both are numeric, nothing otherwise.
pub open spec fn unify(a: ValueType, b: ValueType) -> Option<ValueType> {
    if a == b {
        Some(a)
    } else if spec_is_numeric(a) && spec_is_numeric(b) {
        Some(ValueType::Float)
    } else {
        None
    }
}

/// A value may always be stored where a value of its own type is expected.
pub proof fn lemma_assignable_reflexive(t: ValueType)
    ensures
        assignable(t, t),
{
}

/// Arrays are assignable exactly when their element types are.
pub proof fn lemma_array_assignable(target: ValueType, source: ValueType)
    ensures
        assignable(ValueType::Array(Box::new(target)), ValueType::Array(Box::new(source)))
            == assignable(target, source),
{
}

/// The common type of two types does not depend on their order.
pub proof fn lemma_unify_symmetric(a: ValueType, b: ValueType)
    ensures
        unify(a, b) == unify(b, a),
{
}

/// Comparisons, equality tests and logical operators give `bool`; arithmetic
/// gives `float` when an operand is a float and `int` otherwise.
pub proof fn lemma_binary_result_types(op: BinaryOp, left: ValueType, right: ValueType)
    ensures
        binary_type(op, left, right) matches Some(t) ==> match op {
            BinaryOp::Add | BinaryOp::Sub | BinaryOp::Mul | BinaryOp::Div | BinaryOp::Mod => t == (
            if left == ValueType::Float || right == ValueType::Float {
                ValueType::Float
            } else {
                ValueType::Int
            }),
            _ => t == ValueType::Bool,
        },
{
}

/// Which operand types each binary operator takes: arithmetic and ordering take
/// two numbers, logical operators two booleans, and equality two values of one
/// type or two numbers.
pub proof fn lemma_binary_operands_accepted(op: BinaryOp, left: ValueType, right: ValueType)
    ensures
        (op == BinaryOp::Add || op == BinaryOp::Sub || op == BinaryOp::Mul || op == BinaryOp::Div || op
            == BinaryOp::Mod || op == BinaryOp::Greater || op == BinaryOp::GreaterEq || op == BinaryOp::Less
            || op == BinaryOp::LessEq) ==> (binary_type(op, left, right) is Some <==> ((left == ValueType::Int
            || left == ValueType::Float) && (right == ValueType::Int || right == ValueType::Float))),
        (op == BinaryOp::And || op == BinaryOp::Or) ==> (binary_type(op, left, right) is Some <==> (left
            == ValueType::Bool && right == ValueType::Bool)),
        (op == BinaryOp::Eq || op == BinaryOp::NotEq) ==> (binary_type(op, left, right) is Some <==> (left
            == right || ((left == ValueType::Int || left == ValueType::Float) && (right == ValueType::Int
            || right == ValueType::Float)))),
{
}

/// Numbers mix into floats: an int may be stored where a float is expected but
/// not the other way round, and an int and a float have the common type float;
/// two other different types have no common type.
pub proof fn lemma_numeric_promotion(a: ValueType, b: ValueType)
    ensures
        assignable(ValueType::Float, ValueType::Int),
        !assignable(ValueType::Int, ValueType::Float),
        unify(ValueType::Int, ValueType::Float) == Some(ValueType::Float),
        unify(a, a) == Some(a),
        a != b && !((a == ValueType::Int || a == ValueType::Float) && (b == ValueType::Int || b
            == ValueType::Float)) ==> unify(a, b) is None,
{
}

/// The types that an interpolated expression may have.
pub open spec fn interpolable(t: ValueType) -> bool {
    ||| t == ValueType::Int
    ||| t == ValueType::Float
    ||| t == ValueType::String
    ||| t == ValueType::Bool
    ||| t == ValueType::Array(Box::new(ValueType::String))
}

pub fn is_numeric(ty: &ValueType) -> (b: bool)
    ensures
        b == spec_is_numeric(*ty),
{
    match ty {
        ValueType::Int | ValueType::Float => true,
        _ => false,
    }
}

pub fn is_assignable(target: &ValueType, source: &ValueType) -> (b: bool)
    ensures
        b == assignable(*target, *source),
    decreases target,
{
    if target.same(source) {
        return true;
    }
    match (target, source) {
        (ValueType::Float, ValueType::Int) => true,
        (ValueType::Array(t), ValueType::Array(s)) => is_assignable(t, s),
        _ => false,
    }
}

/// Any two values of one type (not `void`) may be compared for equality and
/// inequality, and the comparison is a `bool`.
pub proof fn lemma_equality_of_one_type(t: ValueType)
    requires
        t != ValueType::Void,
    ensures
        binary_type(BinaryOp::Eq, t, t) == Some(ValueType::Bool),
        binary_type(BinaryOp::NotEq, t, t) == Some(ValueType::Bool),
{
}

/// The types an interpolated expression may have: the four primitive types and
/// arrays of strings.
pub proof fn lemma_interpolable_types()
    ensures
        interpolable(ValueType::Int),
        interpolable(ValueType::Float),
        interpolable(ValueType::String),
        interpolable(ValueType::Bool),
        interpolable(ValueType::Array(Box::new(ValueType::String))),
        !interpolable(ValueType::Void),
{
}

/// The common type of two types, as a ternary's branches or an array literal's
/// elements get it.
pub fn unify_types(a: &ValueType, b: &ValueType) -> (r: Option<ValueType>)
    ensures
        r == unify(*a, *b),
{
    if a.same(b) {
        return Some(a.duplicate());
    }
    if is_numeric(a) && is_numeric(b) {
        return Some(ValueType::Float);
    }
    None
}

pub fn op_name(operation: Operation) -> (s: &'static str)
    ensures
        s@ == match operation {
            Operation::Read => "read"@,
            Operation::Write => "write"@,
        },
{
    match operation {
        Operation::Read => "read",
        Operation::Write => "write",
    }
}

fn is_interpolable(t: &ValueType) -> (b: bool)
    ensures
        b == interpolable(*t),
{
    match t {
        ValueType::Int | ValueType::Float | ValueType::String | ValueType::Bool => true,
        ValueType::Array(inner) => match &**inner {
            ValueType::String => true,
            _ => false,
        },
        _ => false,
    }
}

// ---------------------------------------------------------------------------
// Declarations
// ---------------------------------------------------------------------------

#[derive(Debug)]
pub struct VariableInfo {
    pub ty: ValueType,
    pub entitlement: Option<String>,
    pub span: Span,
}

impl VariableInfo {
    pub fn duplicate(&self) -> (r: VariableInfo)
        ensures
            r == *self,
    {
        VariableInfo {
            ty: self.ty.duplicate(),
            entitlement: match &self.entitlement {
                Some(e) => Some(e.clone()),
                None => None,
            },
            span: self.span,
        }
    }
}

#[derive(Debug)]
pub struct FunctionInfo {
    pub params: Vec<ValueType>,
    pub return_type: ValueType,
}

impl FunctionInfo {
    pub fn duplicate(&self) -> (r: FunctionInfo)
        ensures
            r.params@ == self.params@,
            r.return_type == self.return_type,
    {
        let mut params: Vec<ValueType> = Vec::new();
        let mut i: usize = 0;
        while i < self.params.len()
            invariant
                i <= self.params@.len(),
                params@ == self.params@.take(i as int),
            decreases self.params.len() - i,
        {
            params.push(self.params[i].duplicate());
            assert(self.params@.take(i + 1) =~= self.params@.take(i as int).push(
                self.params@[i as int],
            ));
            i += 1;
        }
        assert(self.params@.take(self.params@.len() as int) =~= self.params@);
        FunctionInfo { params, return_type: self.return_type.duplicate() }
    }
}

/// Whether a signature records a function's parameter types and return type.
pub open spec fn has_signature(info: FunctionInfo, f: FuncDecl) -> bool {
    &&& info.params@ == f.params@.map_values(|p: FuncParam| p.ty)
    &&& info.return_type == f.return_type
}

/// Every function item of `items` has its signature in `functions`.
pub open spec fn signatures_recorded(functions: NameMap<FunctionInfo>, items: Seq<Item>, upto: int) -> bool {
    forall|j: int|
        0 <= j < upto ==> (#[trigger] items[j] matches Item::Func(f) ==> (functions.get_spec(
            f.name@,
        ) matches Some(info) && has_signature(info, f)))
}

/// No two function items of the first `upto` items share a name.
pub open spec fn function_names_distinct(items: Seq<Item>, upto: int) -> bool {
    forall|a: int, b: int|
        0 <= a < b < upto ==> (#[trigger] items[a] matches Item::Func(f) ==> (#[trigger] items[b] matches Item::Func(
            g,
        ) ==> f.name@ != g.name@))
}

/// Some capability item has the given name.
pub open spec fn declares_capability(items: Seq<Item>, name: Seq<char>) -> bool {
    exists|j: int| 0 <= j < items.len() && #[trigger] item_capability_name(items[j]) == Some(name)
}

/// Some right item has the given name.
pub open spec fn declares_right(items: Seq<Item>, name: Seq<char>) -> bool {
    exists|j: int| 0 <= j < items.len() && #[trigger] item_right_name(items[j]) == Some(name)
}

pub open spec fn item_capability_name(item: Item) -> Option<Seq<char>> {
    match item {
        Item::Capability(c) => Some(c.name@),
        _ => None,
    }
}

pub open spec fn item_right_name(item: Item) -> Option<Seq<char>> {
    match item {
        Item::Right(r) => Some(r.name@),
        _ => None,
    }
}

/// Every global variable's capability and every function's right (`main`'s
/// aside) among the first `upto` items is declared in `items`.
pub open spec fn entitlements_declared(items: Seq<Item>, upto: int) -> bool {
    forall|j: int|
        0 <= j < upto ==> match #[trigger] items[j] {
            Item::Var(v) => v.entitlement matches Some(c) ==> declares_capability(items, c@),
            Item::Func(f) => f.name@ != "main"@ ==> (f.right matches Some(r) ==> declares_right(
                items,
                r@,
            )),
            _ => true,
        }
}

/// `fm` holds the signatures of exactly the functions the items declare.
pub open spec fn functions_exactly(fm: NameMap<FunctionInfo>, items: Seq<Item>) -> bool {
    &&& signatures_recorded(fm, items, items.len() as int)
    &&& forall|k: Seq<char>| #[trigger] fm.get_spec(k) is Some ==> first_function(items, k) is Some
}

/// A function of the program is typed, with the program's rights and
/// capabilities, for the given globals, signatures and modules: its parameters
/// are distinct, every statement of its body is typed (so every expression has a
/// type and what it reads and writes is allowed), it returns on some path when it
/// returns a value, and its body holds no interpolated strings and names only
/// declared capabilities.
pub open spec fn function_typed(
    f: FuncDecl,
    items: Seq<Item>,
    gm: NameMap<VariableInfo>,
    fm: NameMap<FunctionInfo>,
    modules: ModuleRegistry,
) -> bool {
    &&& params_distinct(f.params@)
    &&& block_settled(f.body@, |c: Seq<char>| declares_capability(items, c))
    &&& block_typed(
        f.body@,
        params_scope(f.params@),
        gm,
        fm,
        modules,
        f.return_type,
        declared_right_allows(items, f, Operation::Write),
        declared_capability_allows(items, Operation::Write),
        declared_right_allows(items, f, Operation::Read),
        declared_capability_allows(items, Operation::Read),
    )
    &&& (f.return_type != ValueType::Void ==> body_has_return(f.body@))
}

/// Every function of the items is typed for the given globals and signatures.
pub open spec fn functions_typed(
    items: Seq<Item>,
    gm: NameMap<VariableInfo>,
    fm: NameMap<FunctionInfo>,
    modules: ModuleRegistry,
) -> bool {
    forall|j: int| 0 <= j < items.len() ==> (#[trigger] items[j] matches Item::Func(f) ==> function_typed(f, items, gm, fm, modules))
}

/// A program without global variables that semantic analysis accepts: its
/// capabilities and rights have distinct names and are built with `new` from
/// names or strings, its functions have distinct names, every right and
/// capability it names is declared, `main` exists with an allowed signature, and
/// every function is typed with no globals and the program's signatures.
pub open spec fn program_typed(items: Seq<Item>, modules: ModuleRegistry) -> bool {
    &&& forall|j: int| 0 <= j < items.len() ==> !(#[trigger] items[j] is Var)
    &&& forall|a: int, b: int|
        0 <= a < b < items.len() ==> (#[trigger] item_capability_name(items[a]) is Some ==> item_capability_name(items[a])
            != #[trigger] item_capability_name(items[b]))
    &&& forall|a: int, b: int|
        0 <= a < b < items.len() ==> (#[trigger] item_right_name(items[a]) is Some ==> item_right_name(items[a])
            != #[trigger] item_right_name(items[b]))
    &&& forall|j: int| 0 <= j < items.len() ==> (#[trigger] items[j] matches Item::Capability(cd) ==> permission_atoms(cd.initializer) is Some)
    &&& forall|j: int| 0 <= j < items.len() ==> (#[trigger] items[j] matches Item::Right(rd) ==> permission_atoms(rd.initializer) is Some)
    &&& function_names_distinct(items, items.len() as int)
    &&& entitlements_declared(items, items.len() as int)
    &&& first_function(items, "main"@) matches Some(f) && main_signature_ok(f)
    &&& forall|fm: NameMap<FunctionInfo>, gm: NameMap<VariableInfo>|
        functions_exactly(fm, items) && (forall|k: Seq<char>| gm.get_spec(k) is None) ==> #[trigger] functions_typed(items, gm, fm, modules)
}

/// What analysis learned of a program that passed it.
#[derive(Debug)]
pub struct SemanticModel {
    pub globals: NameMap<VariableInfo>,
    pub functions: NameMap<FunctionInfo>,
    pub modules: ModuleRegistry,
}

/// The signature rules of the entry point: no parameters or `(argc: int, argv:
/// string[])`, and no return type.
pub open spec fn main_signature_ok(f: FuncDecl) -> bool {
    &&& f.return_type == ValueType::Void
    &&& main_params_ok(f)
}

/// `main` takes no parameters, or an int and an array of strings.
pub open spec fn main_params_ok(f: FuncDecl) -> bool {
    f.params@.len() == 0 || (f.params@.len() == 2 && f.params@[0].ty == ValueType::Int
        && f.params@[1].ty == ValueType::Array(Box::new(ValueType::String)))
}

/// The diagnostic `d` is among `ds`.
pub open spec fn reported(ds: Seq<DiagnosticView>, d: DiagnosticView) -> bool {
    exists|k: int| 0 <= k < ds.len() && ds[k] == d
}

/// A diagnostic that was reported stays reported as more are added.
proof fn lemma_reported_kept(a: Seq<DiagnosticView>, b: Seq<DiagnosticView>, d: DiagnosticView)
    requires
        reported(a, d),
        extends(a, b),
    ensures
        reported(b, d),
{
    let k = choose|k: int| 0 <= k < a.len() && a[k] == d;
    assert(b[k] == a[k]);
}

/// The first function item with the given name.
pub open spec fn first_function(items: Seq<Item>, name: Seq<char>) -> Option<FuncDecl>
    decreases items.len(),
{
    if items.len() == 0 {
        None
    } else {
        match items[0] {
            Item::Func(f) => if f.name@ == name {
                Some(f)
            } else {
                first_function(items.drop_first(), name)
            },
            _ => first_function(items.drop_first(), name),
        }
    }
}

/// The first function with a name is one of the items, and has that name.
proof fn lemma_first_function_found(items: Seq<Item>, name: Seq<char>)
    requires
        first_function(items, name) is Some,
    ensures
        exists|j: int| 0 <= j < items.len() && items[j] == Item::Func(first_function(items, name)->0),
        first_function(items, name)->0.name@ == name,
    decreases items.len(),
{
    if let Item::Func(f) = items[0] {
        if f.name@ == name {
            assert(items[0] == Item::Func(f));
            return;
        }
    }
    lemma_first_function_found(items.drop_first(), name);
    let j = choose|j: int| 0 <= j < items.drop_first().len() && items.drop_first()[j] == Item::Func(first_function(items.drop_first(), name)->0);
    assert(items[j + 1] == items.drop_first()[j]);
}

/// Once a prefix of the items has a function of some name, longer prefixes have
/// the same first function of that name.
proof fn lemma_first_function_stable(items: Seq<Item>, k: int, m: int, name: Seq<char>)
    requires
        0 <= k <= m <= items.len(),
        first_function(items.take(k), name) is Some,
    ensures
        first_function(items.take(m), name) == first_function(items.take(k), name),
    decreases m - k,
{
    if m > k {
        lemma_first_function_stable(items, k, m - 1, name);
        lemma_first_function_push(items.take(m - 1), items[m - 1], name);
        assert(items.take(m - 1).push(items[m - 1]) =~= items.take(m));
    }
}

proof fn lemma_first_function_push(items: Seq<Item>, item: Item, name: Seq<char>)
    ensures
        first_function(items.push(item), name) == match first_function(items, name) {
            Some(f) => Some(f),
            None => match item {
                Item::Func(f) => if f.name@ == name {
                    Some(f)
                } else {
                    None
                },
                _ => None,
            },
        },
    decreases items.len(),
{
    let p = items.push(item);
    if items.len() == 0 {
        assert(p.drop_first() =~= Seq::<Item>::empty());
        assert(p[0] == item);
        assert(first_function(p.drop_first(), name) is None);
    } else {
        assert(p.drop_first() =~= items.drop_first().push(item));
        assert(p[0] == items[0]);
        lemma_first_function_push(items.drop_first(), item, name);
    }
}

// ---------------------------------------------------------------------------
// Expression types
// ---------------------------------------------------------------------------

/// The type of a name in an expression: a local, or else a global whose type is
/// already known.
/// The local variables in scope, by name.
pub open spec fn scope_of(locals: NameMap<VariableInfo>) -> spec_fn(Seq<char>) -> Option<VariableInfo> {
    |k: Seq<char>| locals.get_spec(k)
}

pub open spec fn variable_type(
    locals: spec_fn(Seq<char>) -> Option<VariableInfo>,
    globals: NameMap<VariableInfo>,
    name: Seq<char>,
) -> Option<ValueType> {
    match locals(name) {
        Some(v) => Some(v.ty),
        None => match globals.get_spec(name) {
            Some(g) => if g.ty == ValueType::Void {
                None
            } else {
                Some(g.ty)
            },
            None => None,
        },
    }
}

/// Whether no string literal in `e` interpolates an expression.
pub open spec fn interpolation_free(e: Expr) -> bool
    decreases e,
{
    match e {
        Expr::StringLiteral(t, _) => match segments_spec(t@) {
            Ok(segs) => forall|i: int| 0 <= i < segs.len() ==> (#[trigger] segs[i]) is Text,
            Err(_) => true,
        },
        Expr::ArrayLiteral(items, _) => forall|i: int|
            0 <= i < items@.len() ==> interpolation_free(#[trigger] items@[i]),
        Expr::Index { array, index, .. } => interpolation_free(*array) && interpolation_free(*index),
        Expr::NewObject { args, .. } => forall|i: int|
            0 <= i < args@.len() ==> interpolation_free(#[trigger] args@[i]),
        Expr::Call { args, .. } => forall|i: int|
            0 <= i < args@.len() ==> interpolation_free(#[trigger] args@[i]),
        Expr::Unary { expr, .. } => interpolation_free(*expr),
        Expr::Binary { left, right, .. } => interpolation_free(*left) && interpolation_free(*right),
        Expr::Ternary { condition, then_expr, else_expr, .. } => interpolation_free(*condition)
            && interpolation_free(*then_expr) && interpolation_free(*else_expr),
        _ => true,
    }
}

/// The common type of a non-empty list of element types.
pub open spec fn unify_all(ts: Seq<ValueType>) -> Option<ValueType>
    decreases ts.len(),
{
    if ts.len() == 0 {
        None
    } else if ts.len() == 1 {
        Some(ts[0])
    } else {
        match unify_all(ts.drop_last()) {
            Some(t) => unify(t, ts.last()),
            None => None,
        }
    }
}

/// The types that `print` and `println` of the Bridge module take.
pub open spec fn printable(t: ValueType) -> bool {
    t == ValueType::Int || t == ValueType::Float || t == ValueType::String || t == ValueType::Bool
}

/// The type of an expression, when it has one: the typing rules of the
/// language, for the given scope, globals, function signatures and modules.
pub open spec fn expr_type(
    e: Expr,
    locals: spec_fn(Seq<char>) -> Option<VariableInfo>,
    globals: NameMap<VariableInfo>,
    functions: NameMap<FunctionInfo>,
    modules: ModuleRegistry,
) -> Option<ValueType>
    decreases e,
{
    match e {
        Expr::IntLiteral(..) => Some(ValueType::Int),
        Expr::FloatLiteral(..) => Some(ValueType::Float),
        Expr::BoolLiteral(..) => Some(ValueType::Bool),
        Expr::StringLiteral(t, _) => match segments_spec(t@) {
            Ok(_) => Some(ValueType::String),
            Err(_) => None,
        },
        Expr::Identifier(name, _) => variable_type(locals, globals, name@),
        Expr::ArrayLiteral(items, _) => match exprs_types(items@, locals, globals, functions, modules) {
            Some(ts) => match unify_all(ts) {
                Some(t) => Some(ValueType::Array(Box::new(t))),
                None => None,
            },
            None => None,
        },
        Expr::Index { array, index, .. } => match (
            expr_type(*array, locals, globals, functions, modules),
            expr_type(*index, locals, globals, functions, modules),
        ) {
            (Some(ValueType::Array(inner)), Some(ValueType::Int)) => Some(*inner),
            _ => None,
        },
        Expr::NewObject { .. } => None,
        Expr::Unary { op, expr, .. } => match expr_type(*expr, locals, globals, functions, modules) {
            Some(t) => match op {
                UnaryOp::Neg => if spec_is_numeric(t) {
                    Some(t)
                } else {
                    None
                },
                UnaryOp::Not => if t == ValueType::Bool {
                    Some(ValueType::Bool)
                } else {
                    None
                },
            },
            None => None,
        },
        Expr::Binary { left, op, right, .. } => match (
            expr_type(*left, locals, globals, functions, modules),
            expr_type(*right, locals, globals, functions, modules),
        ) {
            (Some(l), Some(r)) => binary_type(op, l, r),
            _ => None,
        },
        Expr::Ternary { condition, then_expr, else_expr, .. } => match (
            expr_type(*condition, locals, globals, functions, modules),
            expr_type(*then_expr, locals, globals, functions, modules),
            expr_type(*else_expr, locals, globals, functions, modules),
        ) {
            (Some(ValueType::Bool), Some(a), Some(b)) => unify(a, b),
            _ => None,
        },
        Expr::Call { callee, args, .. } => match callee {
            CallTarget::Name(f) => if f@ == "Int"@ {
                if args@.len() != 1 {
                    None
                } else {
                    match expr_type(args@[0], locals, globals, functions, modules) {
                        Some(t) => if printable(t) {
                            Some(ValueType::Int)
                        } else {
                            None
                        },
                        None => None,
                    }
                }
            } else {
                match functions.get_spec(f@) {
                    Some(sig) => if sig.params@.len() != args@.len() {
                        None
                    } else {
                        match exprs_types(args@, locals, globals, functions, modules) {
                            Some(ts) => if forall|i: int|
                                0 <= i < ts.len() ==> assignable(sig.params@[i], #[trigger] ts[i]) {
                                Some(sig.return_type)
                            } else {
                                None
                            },
                            None => None,
                        }
                    },
                    None => None,
                }
            },
            CallTarget::Qualified { module, name } => qualified_call_type(
                module@,
                name@,
                args@.len(),
                exprs_types(args@, locals, globals, functions, modules),
                if args@.len() > 0 {
                    expr_type(args@[0], locals, globals, functions, modules)
                } else {
                    None
                },
                modules,
            ),
        },
    }
}

/// The type of a call `module.name(args)`, given the number of arguments, their
/// types (when all have one) and the type of the first: the Bridge module's
/// `print`, `println`, `sleep`, `usleep` and `system` follow fixed rules, other
/// functions the overloads of their module.
pub open spec fn qualified_call_type(
    module: Seq<char>,
    name: Seq<char>,
    arg_count: nat,
    arg_types: Option<Seq<ValueType>>,
    first_type: Option<ValueType>,
    modules: ModuleRegistry,
) -> Option<ValueType> {
    if modules.module_spec(module) is None {
        None
    } else if module == "Bridge"@ && (name == "println"@ || name == "print"@) {
        match arg_types {
            Some(ts) => if forall|i: int| 0 <= i < ts.len() ==> printable(#[trigger] ts[i]) {
                Some(ValueType::Void)
            } else {
                None
            },
            None => None,
        }
    } else if module == "Bridge"@ && (name == "sleep"@ || name == "usleep"@) {
        if arg_count != 1 {
            None
        } else if first_type == Some(ValueType::Int) {
            Some(ValueType::Void)
        } else {
            None
        }
    } else if module == "Bridge"@ && name == "system"@ {
        match arg_types {
            Some(ts) => if forall|i: int| 0 <= i < ts.len() ==> #[trigger] ts[i] == ValueType::String {
                Some(ValueType::Void)
            } else {
                None
            },
            None => None,
        }
    } else {
        match arg_types {
            Some(ts) => match modules.resolve_spec(module, name, ts) {
                Some(resolved) => Some(resolved.2),
                None => None,
            },
            None => None,
        }
    }
}

/// The types of a list of expressions, when all of them have one.
pub open spec fn exprs_types(
    items: Seq<Expr>,
    locals: spec_fn(Seq<char>) -> Option<VariableInfo>,
    globals: NameMap<VariableInfo>,
    functions: NameMap<FunctionInfo>,
    modules: ModuleRegistry,
) -> Option<Seq<ValueType>>
    decreases items,
{
    if items.len() == 0 {
        Some(Seq::empty())
    } else {
        let rest = items.subrange(0, items.len() - 1);
        match (
            exprs_types(rest, locals, globals, functions, modules),
            expr_type(items[items.len() - 1], locals, globals, functions, modules),
        ) {
            (Some(ts), Some(t)) => Some(ts.push(t)),
            _ => None,
        }
    }
}

proof fn lemma_exprs_types_step(
    items: Seq<Expr>,
    k: int,
    l: spec_fn(Seq<char>) -> Option<VariableInfo>,
    g: NameMap<VariableInfo>,
    f: NameMap<FunctionInfo>,
    m: ModuleRegistry,
)
    requires
        0 <= k < items.len(),
    ensures
        exprs_types(items.take(k + 1), l, g, f, m) == match (
            exprs_types(items.take(k), l, g, f, m),
            expr_type(items[k], l, g, f, m),
        ) {
            (Some(ts), Some(t)) => Some(ts.push(t)),
            _ => None,
        },
{
    let p = items.take(k + 1);
    assert(p.subrange(0, p.len() - 1) =~= items.take(k));
    assert(p[p.len() - 1] == items[k]);
}

proof fn lemma_exprs_types_none(
    items: Seq<Expr>,
    k: int,
    l: spec_fn(Seq<char>) -> Option<VariableInfo>,
    g: NameMap<VariableInfo>,
    f: NameMap<FunctionInfo>,
    m: ModuleRegistry,
)
    requires
        0 <= k <= items.len(),
        exprs_types(items.take(k), l, g, f, m) is None,
    ensures
        exprs_types(items, l, g, f, m) is None,
    decreases items.len() - k,
{
    if k < items.len() {
        lemma_exprs_types_step(items, k, l, g, f, m);
        lemma_exprs_types_none(items, k + 1, l, g, f, m);
    } else {
        assert(items.take(k) =~= items);
    }
}

proof fn lemma_exprs_types_prefix(
    items: Seq<Expr>,
    k: int,
    l: spec_fn(Seq<char>) -> Option<VariableInfo>,
    g: NameMap<VariableInfo>,
    f: NameMap<FunctionInfo>,
    m: ModuleRegistry,
)
    requires
        0 <= k <= items.len(),
        exprs_types(items, l, g, f, m) is Some,
    ensures
        exprs_types(items.take(k), l, g, f, m) == Some(exprs_types(items, l, g, f, m)->0.take(k)),
        exprs_types(items, l, g, f, m)->0.len() == items.len(),
    decreases items.len() - k,
{
    if k < items.len() {
        lemma_exprs_types_prefix(items, k + 1, l, g, f, m);
        lemma_exprs_types_step(items, k, l, g, f, m);
        let all = exprs_types(items, l, g, f, m)->0;
        assert(all.take(k + 1).drop_last() =~= all.take(k));
        match exprs_types(items.take(k), l, g, f, m) {
            Some(ts) => {
                assert(ts.push(expr_type(items[k], l, g, f, m)->0) == all.take(k + 1));
                assert(ts =~= all.take(k));
            },
            None => {},
        }
    } else {
        assert(items.take(k) =~= items);
        lemma_exprs_types_len(items, l, g, f, m);
        assert(exprs_types(items, l, g, f, m)->0.take(k) =~= exprs_types(items, l, g, f, m)->0);
    }
}

/// Each expression of a list whose types are all known has the type at its place.
proof fn lemma_exprs_types_at(
    items: Seq<Expr>,
    k: int,
    l: spec_fn(Seq<char>) -> Option<VariableInfo>,
    g: NameMap<VariableInfo>,
    f: NameMap<FunctionInfo>,
    m: ModuleRegistry,
)
    requires
        0 <= k < items.len(),
        exprs_types(items, l, g, f, m) is Some,
    ensures
        expr_type(items[k], l, g, f, m) == Some(exprs_types(items, l, g, f, m)->0[k]),
{
    let ts = exprs_types(items, l, g, f, m)->0;
    lemma_exprs_types_prefix(items, k + 1, l, g, f, m);
    lemma_exprs_types_prefix(items, k, l, g, f, m);
    lemma_exprs_types_step(items, k, l, g, f, m);
    lemma_exprs_types_len(items, l, g, f, m);
    assert(ts.take(k + 1) == ts.take(k).push(expr_type(items[k], l, g, f, m)->0));
    assert(ts.take(k + 1)[k] == ts[k]);
}

proof fn lemma_exprs_types_len(
    items: Seq<Expr>,
    l: spec_fn(Seq<char>) -> Option<VariableInfo>,
    g: NameMap<VariableInfo>,
    f: NameMap<FunctionInfo>,
    m: ModuleRegistry,
)
    requires
        exprs_types(items, l, g, f, m) is Some,
    ensures
        exprs_types(items, l, g, f, m)->0.len() == items.len(),
    decreases items.len(),
{
    if items.len() > 0 {
        lemma_exprs_types_len(items.subrange(0, items.len() - 1), l, g, f, m);
    }
}

proof fn lemma_unify_all_none(ts: Seq<ValueType>, k: int)
    requires
        1 <= k <= ts.len(),
        unify_all(ts.take(k)) is None,
    ensures
        unify_all(ts) is None,
    decreases ts.len() - k,
{
    if k < ts.len() {
        assert(ts.take(k + 1).drop_last() =~= ts.take(k));
        lemma_unify_all_none(ts, k + 1);
    } else {
        assert(ts.take(k) =~= ts);
    }
}

/// Whether a statement holds a `return`, at any depth.
pub open spec fn stmt_has_return(s: Stmt) -> bool
    decreases s,
{
    match s {
        Stmt::Return { .. } => true,
        Stmt::If { then_branch, else_branch, .. } => (exists|i: int|
            0 <= i < then_branch@.len() && stmt_has_return(#[trigger] then_branch@[i])) || (exists|
            i: int,
        |
            0 <= i < else_branch@.len() && stmt_has_return(#[trigger] else_branch@[i])),
        Stmt::While { body, .. } => exists|i: int|
            0 <= i < body@.len() && stmt_has_return(#[trigger] body@[i]),
        Stmt::DoWhile { body, .. } => exists|i: int|
            0 <= i < body@.len() && stmt_has_return(#[trigger] body@[i]),
        Stmt::Block { statements, .. } => exists|i: int|
            0 <= i < statements@.len() && stmt_has_return(#[trigger] statements@[i]),
        _ => false,
    }
}

pub open spec fn body_has_return(body: Seq<Stmt>) -> bool {
    exists|i: int| 0 <= i < body.len() && stmt_has_return(#[trigger] body[i])
}

/// The scope after a statement: a local declaration whose initializer has a
/// type binds its name, with the declared type when there is one; other
/// statements leave the scope as it is (nested blocks have scopes of their own).
pub open spec fn scope_after(
    s: Stmt,
    scope: spec_fn(Seq<char>) -> Option<VariableInfo>,
    globals: NameMap<VariableInfo>,
    functions: NameMap<FunctionInfo>,
    modules: ModuleRegistry,
) -> spec_fn(Seq<char>) -> Option<VariableInfo> {
    match s {
        Stmt::VarDecl(d) => match expr_type(d.initializer, scope, globals, functions, modules) {
            Some(t) => {
                let info = VariableInfo {
                    ty: match d.explicit_type {
                        Some(x) => x,
                        None => t,
                    },
                    entitlement: d.entitlement,
                    span: d.span,
                };
                |k: Seq<char>| if k == d.name@ {
                    Some(info)
                } else {
                    scope(k)
                }
            },
            None => scope,
        },
        _ => scope,
    }
}

/// The scope after a sequence of statements.
pub open spec fn scope_through(
    stmts: Seq<Stmt>,
    scope: spec_fn(Seq<char>) -> Option<VariableInfo>,
    globals: NameMap<VariableInfo>,
    functions: NameMap<FunctionInfo>,
    modules: ModuleRegistry,
) -> spec_fn(Seq<char>) -> Option<VariableInfo>
    decreases stmts.len(),
{
    if stmts.len() == 0 {
        scope
    } else {
        scope_after(
            stmts.last(),
            scope_through(stmts.drop_last(), scope, globals, functions, modules),
            globals,
            functions,
            modules,
        )
    }
}

/// The variable a name refers to: a local in scope, else a global whose type
/// is known.
pub open spec fn variable_of(
    scope: spec_fn(Seq<char>) -> Option<VariableInfo>,
    globals: NameMap<VariableInfo>,
    name: Seq<char>,
) -> Option<VariableInfo> {
    match scope(name) {
        Some(v) => Some(v),
        None => match globals.get_spec(name) {
            Some(g) => if g.ty == ValueType::Void {
                None
            } else {
                Some(g)
            },
            None => None,
        },
    }
}

/// The variable an indexing chain starts from.
pub open spec fn root_variable(
    e: Expr,
    scope: spec_fn(Seq<char>) -> Option<VariableInfo>,
    globals: NameMap<VariableInfo>,
) -> Option<VariableInfo>
    decreases e,
{
    match e {
        Expr::Identifier(name, _) => variable_of(scope, globals, name@),
        Expr::Index { array, .. } => root_variable(*array, scope, globals),
        _ => None,
    }
}

/// The variable an assignment writes to, or into.
pub open spec fn target_root(
    target: AssignTarget,
    scope: spec_fn(Seq<char>) -> Option<VariableInfo>,
    globals: NameMap<VariableInfo>,
) -> Option<VariableInfo> {
    match target {
        AssignTarget::Identifier(name) => variable_of(scope, globals, name@),
        AssignTarget::Index { array, .. } => root_variable(array, scope, globals),
    }
}

/// Every variable that `e` reads, outside interpolated strings, may be read: the
/// right allows reading when `may_read` holds, and a variable with a capability
/// `c` may be read when `readable(c)` holds.
pub open spec fn reads_ok(
    e: Expr,
    scope: spec_fn(Seq<char>) -> Option<VariableInfo>,
    globals: NameMap<VariableInfo>,
    may_read: bool,
    readable: spec_fn(Seq<char>) -> bool,
) -> bool
    decreases e,
{
    match e {
        Expr::Identifier(name, _) => variable_of(scope, globals, name@) matches Some(v) ==> (may_read
            && (v.entitlement matches Some(c) ==> readable(c@))),
        Expr::ArrayLiteral(items, _) => forall|i: int|
            0 <= i < items@.len() ==> reads_ok(#[trigger] items@[i], scope, globals, may_read, readable),
        Expr::Index { array, index, .. } => reads_ok(*array, scope, globals, may_read, readable)
            && reads_ok(*index, scope, globals, may_read, readable),
        Expr::NewObject { args, .. } => forall|i: int|
            0 <= i < args@.len() ==> reads_ok(#[trigger] args@[i], scope, globals, may_read, readable),
        Expr::Call { args, .. } => forall|i: int|
            0 <= i < args@.len() ==> reads_ok(#[trigger] args@[i], scope, globals, may_read, readable),
        Expr::Unary { expr, .. } => reads_ok(*expr, scope, globals, may_read, readable),
        Expr::Binary { left, right, .. } => reads_ok(*left, scope, globals, may_read, readable)
            && reads_ok(*right, scope, globals, may_read, readable),
        Expr::Ternary { condition, then_expr, else_expr, .. } => reads_ok(
            *condition,
            scope,
            globals,
            may_read,
            readable,
        ) && reads_ok(*then_expr, scope, globals, may_read, readable) && reads_ok(
            *else_expr,
            scope,
            globals,
            may_read,
            readable,
        ),
        _ => true,
    }
}

/// The type an assignment writes: a variable's, or an array element's when the
/// array has an array type and the index has type int.
pub open spec fn target_type(
    target: AssignTarget,
    scope: spec_fn(Seq<char>) -> Option<VariableInfo>,
    globals: NameMap<VariableInfo>,
    functions: NameMap<FunctionInfo>,
    modules: ModuleRegistry,
) -> Option<ValueType> {
    match target {
        AssignTarget::Identifier(name) => variable_type(scope, globals, name@),
        AssignTarget::Index { array, index } => match (
            expr_type(array, scope, globals, functions, modules),
            expr_type(index, scope, globals, functions, modules),
        ) {
            (Some(ValueType::Array(inner)), Some(ValueType::Int)) => Some(*inner),
            _ => None,
        },
    }
}

/// The typing rules of statements, in a scope, for a function returning `ret`
/// and allowed to write variables when `may_write` holds, and variables with a
/// capability `c` when `writable(c)` holds; likewise to read them when
/// `may_read` and `readable(c)` hold (see `reads_ok`). Every expression of a
/// statement has a type: a conditional's condition is `bool`, a declaration's
/// initializer and an assignment's value and target have types, and so does a
/// returned value and an expression statement.
pub open spec fn stmt_typed(
    s: Stmt,
    scope: spec_fn(Seq<char>) -> Option<VariableInfo>,
    globals: NameMap<VariableInfo>,
    functions: NameMap<FunctionInfo>,
    modules: ModuleRegistry,
    ret: ValueType,
    may_write: bool,
    writable: spec_fn(Seq<char>) -> bool,
    may_read: bool,
    readable: spec_fn(Seq<char>) -> bool,
) -> bool
    decreases s,
{
    let ty = |e: Expr| expr_type(e, scope, globals, functions, modules);
    let reads = |e: Expr| reads_ok(e, scope, globals, may_read, readable);
    match s {
        Stmt::VarDecl(d) => {
            &&& scope(d.name@) is None
            &&& ty(d.initializer) is Some
            &&& ty(d.initializer) matches Some(t) ==> (d.explicit_type matches Some(x) ==> assignable(x, t))
            &&& ty(d.initializer) is Some ==> reads(d.initializer)
        },
        Stmt::Assign { target, value, .. } => {
            &&& target_type(target, scope, globals, functions, modules) is Some
            &&& target_root(target, scope, globals) is Some
            &&& ty(value) is Some
            &&& (target matches AssignTarget::Index { array, index } ==> (ty(array) matches Some(a) ==> (
            ty(index) matches Some(x) ==> (a is Array && x == ValueType::Int))))
            &&& (target_type(target, scope, globals, functions, modules) matches Some(tt) ==> (ty(
                value,
            ) matches Some(vt) ==> assignable(tt, vt)))
            &&& (target_type(target, scope, globals, functions, modules) is Some ==> may_write)
            &&& (target matches AssignTarget::Index { array, index } ==> ((ty(array) is Some ==> reads(array))
                && (ty(array) is Some && ty(index) is Some ==> reads(index))))
            &&& (target_type(target, scope, globals, functions, modules) is Some && ty(value) is Some
                ==> reads(value))
            &&& (target_type(target, scope, globals, functions, modules) is Some ==> (target_root(
                target,
                scope,
                globals,
            ) matches Some(v) ==> (v.entitlement matches Some(c) ==> writable(c@))))
        },
        Stmt::If { condition, then_branch, else_branch, .. } => {
            &&& ty(condition) == Some(ValueType::Bool)
            &&& (ty(condition) matches Some(t) ==> t == ValueType::Bool)
            &&& (ty(condition) is Some ==> reads(condition))
            &&& block_typed(then_branch@, scope, globals, functions, modules, ret, may_write, writable, may_read, readable)
            &&& block_typed(else_branch@, scope, globals, functions, modules, ret, may_write, writable, may_read, readable)
        },
        Stmt::While { condition, body, .. } => {
            &&& ty(condition) == Some(ValueType::Bool)
            &&& (ty(condition) matches Some(t) ==> t == ValueType::Bool)
            &&& (ty(condition) is Some ==> reads(condition))
            &&& block_typed(body@, scope, globals, functions, modules, ret, may_write, writable, may_read, readable)
        },
        Stmt::DoWhile { body, condition, .. } => {
            &&& block_typed(body@, scope, globals, functions, modules, ret, may_write, writable, may_read, readable)
            &&& ty(condition) == Some(ValueType::Bool)
            &&& (ty(condition) matches Some(t) ==> t == ValueType::Bool)
            &&& (ty(condition) is Some ==> reads(condition))
        },
        Stmt::Block { statements, .. } => block_typed(statements@, scope, globals, functions, modules, ret, may_write, writable, may_read, readable),
        Stmt::Return { value, .. } => match value {
            None => ret == ValueType::Void,
            Some(v) => ret != ValueType::Void && ty(v) is Some && (ty(v) matches Some(t) ==> assignable(ret, t)) && (ty(
                v,
            ) is Some ==> reads(v)),
        },
        Stmt::Expr { expr, .. } => ty(expr) is Some && reads(expr),
    }
}

/// Every expression of a statement, in its nested blocks too, is free of
/// interpolated strings.
pub open spec fn stmt_interpolation_free(s: Stmt) -> bool
    decreases s,
{
    match s {
        Stmt::VarDecl(d) => interpolation_free(d.initializer),
        Stmt::Assign { target, value, .. } => interpolation_free(value) && (target matches AssignTarget::Index {
            array,
            index,
        } ==> interpolation_free(array) && interpolation_free(index)),
        Stmt::If { condition, then_branch, else_branch, .. } => interpolation_free(condition) && (forall|i: int|
            0 <= i < then_branch@.len() ==> stmt_interpolation_free(#[trigger] then_branch@[i])) && (forall|i: int|
            0 <= i < else_branch@.len() ==> stmt_interpolation_free(#[trigger] else_branch@[i])),
        Stmt::While { condition, body, .. } => interpolation_free(condition) && forall|i: int|
            0 <= i < body@.len() ==> stmt_interpolation_free(#[trigger] body@[i]),
        Stmt::DoWhile { body, condition, .. } => interpolation_free(condition) && forall|i: int|
            0 <= i < body@.len() ==> stmt_interpolation_free(#[trigger] body@[i]),
        Stmt::Block { statements, .. } => forall|i: int|
            0 <= i < statements@.len() ==> stmt_interpolation_free(#[trigger] statements@[i]),
        Stmt::Return { value, .. } => value matches Some(v) ==> interpolation_free(v),
        Stmt::Expr { expr, .. } => interpolation_free(expr),
    }
}

/// Every capability that a declaration in the statement, or in its nested
/// blocks, names is one that `known` holds of.
pub open spec fn stmt_entitlements_known(s: Stmt, known: spec_fn(Seq<char>) -> bool) -> bool
    decreases s,
{
    match s {
        Stmt::VarDecl(d) => d.entitlement matches Some(c) ==> known(c@),
        Stmt::If { then_branch, else_branch, .. } => (forall|i: int|
            0 <= i < then_branch@.len() ==> stmt_entitlements_known(#[trigger] then_branch@[i], known)) && (forall|i: int|
            0 <= i < else_branch@.len() ==> stmt_entitlements_known(#[trigger] else_branch@[i], known)),
        Stmt::While { body, .. } => forall|i: int|
            0 <= i < body@.len() ==> stmt_entitlements_known(#[trigger] body@[i], known),
        Stmt::DoWhile { body, .. } => forall|i: int|
            0 <= i < body@.len() ==> stmt_entitlements_known(#[trigger] body@[i], known),
        Stmt::Block { statements, .. } => forall|i: int|
            0 <= i < statements@.len() ==> stmt_entitlements_known(#[trigger] statements@[i], known),
        _ => true,
    }
}

/// The statements of a block are free of interpolated strings and name only
/// capabilities that `known` holds of.
pub open spec fn block_settled(stmts: Seq<Stmt>, known: spec_fn(Seq<char>) -> bool) -> bool {
    forall|i: int| 0 <= i < stmts.len() ==> stmt_interpolation_free(#[trigger] stmts[i])
        && stmt_entitlements_known(stmts[i], known)
}

/// The capabilities that a map declares.
pub open spec fn known_capabilities(caps: NameMap<PermissionSet>) -> spec_fn(Seq<char>) -> bool {
    |c: Seq<char>| caps.get_spec(c) is Some
}

/// The typing rules of a sequence of statements, each in the scope the ones
/// before it leave.
pub open spec fn block_typed(
    stmts: Seq<Stmt>,
    scope: spec_fn(Seq<char>) -> Option<VariableInfo>,
    globals: NameMap<VariableInfo>,
    functions: NameMap<FunctionInfo>,
    modules: ModuleRegistry,
    ret: ValueType,
    may_write: bool,
    writable: spec_fn(Seq<char>) -> bool,
    may_read: bool,
    readable: spec_fn(Seq<char>) -> bool,
) -> bool
    decreases stmts,
{
    if stmts.len() == 0 {
        true
    } else {
        &&& block_typed(stmts.drop_last(), scope, globals, functions, modules, ret, may_write, writable, may_read, readable)
        &&& stmt_typed(
            stmts.last(),
            scope_through(stmts.drop_last(), scope, globals, functions, modules),
            globals,
            functions,
            modules,
            ret,
            may_write,
            writable,
            may_read,
            readable,
        )
    }
}

/// A statement of a typed block is typed in the scope the statements before it leave.
pub proof fn lemma_block_typed_at(
    stmts: Seq<Stmt>,
    i: int,
    scope: spec_fn(Seq<char>) -> Option<VariableInfo>,
    globals: NameMap<VariableInfo>,
    functions: NameMap<FunctionInfo>,
    modules: ModuleRegistry,
    ret: ValueType,
    may_write: bool,
    writable: spec_fn(Seq<char>) -> bool,
    may_read: bool,
    readable: spec_fn(Seq<char>) -> bool,
)
    requires
        0 <= i < stmts.len(),
        block_typed(stmts, scope, globals, functions, modules, ret, may_write, writable, may_read, readable),
    ensures
        stmt_typed(
            stmts[i],
            scope_through(stmts.take(i), scope, globals, functions, modules),
            globals,
            functions,
            modules,
            ret,
            may_write,
            writable,
            may_read,
            readable,
        ),
    decreases stmts.len(),
{
    if i == stmts.len() - 1 {
        assert(stmts.drop_last() =~= stmts.take(i));
    } else {
        lemma_block_typed_at(stmts.drop_last(), i, scope, globals, functions, modules, ret, may_write, writable, may_read, readable);
        assert(stmts.drop_last().take(i) =~= stmts.take(i));
    }
}

/// Whether a right, when there is one, allows an operation.
pub open spec fn allowed_by(right: Option<&PermissionSet>, op: Operation) -> bool {
    right matches Some(r) ==> r.permits(op)
}

/// Whether a right, when there is one, allows an operation.
pub open spec fn owned_allows(right: Option<PermissionSet>, op: Operation) -> bool {
    right matches Some(r) ==> r.permits(op)
}

/// Whether the right a function is declared with allows an operation, given
/// the rights by name; `main` is bound by no right.
pub open spec fn function_may(rights: NameMap<PermissionSet>, f: FuncDecl, op: Operation) -> bool {
    f.name@ == "main"@ || match f.right {
        None => true,
        Some(name) => match rights.get_spec(name@) {
            None => true,
            Some(set) => set.permits(op),
        },
    }
}

/// The text of a permission atom written as a name or a string.
pub open spec fn atom_text(a: Expr) -> String {
    match a {
        Expr::Identifier(name, _) => name,
        Expr::StringLiteral(text, _) => text,
        _ => vstd::pervasive::arbitrary(),
    }
}

/// The permission atoms of `new Capability(...)` or `new Right(...)`: its
/// arguments, each a name or a string.
pub open spec fn permission_atoms(e: Expr) -> Option<Seq<String>> {
    match e {
        Expr::NewObject { args, .. } => if forall|i: int|
            0 <= i < args@.len() ==> (#[trigger] args@[i] is Identifier || args@[i] is StringLiteral) {
            Some(args@.map_values(|a: Expr| atom_text(a)))
        } else {
            None
        },
        _ => None,
    }
}

/// The rights by name hold the right `rd` declares, with the permissions of its atoms.
pub open spec fn rights_entry(rights: NameMap<PermissionSet>, rd: RightDecl) -> bool {
    &&& rights.get_spec(rd.name@) matches Some(set)
    &&& permission_atoms(rd.initializer) == Some(set.atoms())
    &&& forall|op: Operation| #[trigger] set.permits(op) == atoms_permit(set.atoms(), op)
}

/// Whether the right a function is declared with allows an operation, read
/// from the program's right declarations; `main` is bound by no right.
pub open spec fn declared_right_allows(items: Seq<Item>, f: FuncDecl, op: Operation) -> bool {
    f.name@ == "main"@ || match f.right {
        None => true,
        Some(name) => forall|j: int|
            0 <= j < items.len() ==> (#[trigger] items[j] matches Item::Right(rd) ==> (rd.name@
                == name@ ==> (permission_atoms(rd.initializer) matches Some(atoms) && atoms_permit(
                atoms,
                op,
            )))),
    }
}

/// For each capability name, whether the capability, when declared, allows an
/// operation, given the capabilities by name.
pub open spec fn capability_allows(caps: NameMap<PermissionSet>, op: Operation) -> spec_fn(Seq<char>) -> bool {
    |c: Seq<char>| caps.get_spec(c) matches Some(set) ==> set.permits(op)
}

/// For each capability name, whether the program's declarations of it allow an
/// operation.
pub open spec fn declared_capability_allows(items: Seq<Item>, op: Operation) -> spec_fn(Seq<char>) -> bool {
    |c: Seq<char>| forall|j: int|
        0 <= j < items.len() ==> (#[trigger] items[j] matches Item::Capability(cd) ==> (cd.name@ == c
            ==> (permission_atoms(cd.initializer) matches Some(atoms) && atoms_permit(atoms, op))))
}

/// The capabilities by name hold the capability `cd` declares, with the
/// permissions of its atoms.
pub open spec fn capabilities_entry(caps: NameMap<PermissionSet>, cd: CapabilityDecl) -> bool {
    &&& caps.get_spec(cd.name@) matches Some(set)
    &&& permission_atoms(cd.initializer) == Some(set.atoms())
    &&& forall|op: Operation| #[trigger] set.permits(op) == atoms_permit(set.atoms(), op)
}

/// The scope a function body starts in: its parameters.
pub open spec fn params_scope(ps: Seq<FuncParam>) -> spec_fn(Seq<char>) -> Option<VariableInfo>
    decreases ps.len(),
{
    if ps.len() == 0 {
        |k: Seq<char>| None
    } else {
        let p = ps.last();
        let rest = params_scope(ps.drop_last());
        |k: Seq<char>| if k == p.name@ {
            Some(VariableInfo { ty: p.ty, entitlement: None, span: p.span })
        } else {
            rest(k)
        }
    }
}

/// A name is bound in a parameter scope exactly when a parameter has it.
pub proof fn lemma_params_scope_names(ps: Seq<FuncParam>, k: Seq<char>)
    ensures
        params_scope(ps)(k) is Some <==> exists|j: int| 0 <= j < ps.len() && (#[trigger] ps[j]).name@ == k,
    decreases ps.len(),
{
    if ps.len() > 0 {
        lemma_params_scope_names(ps.drop_last(), k);
        if exists|j: int| 0 <= j < ps.drop_last().len() && (#[trigger] ps.drop_last()[j]).name@ == k {
            let j = choose|j: int| 0 <= j < ps.drop_last().len() && (#[trigger] ps.drop_last()[j]).name@ == k;
            assert(ps[j] == ps.drop_last()[j]);
        }
        if exists|j: int| 0 <= j < ps.len() && (#[trigger] ps[j]).name@ == k {
            let j = choose|j: int| 0 <= j < ps.len() && (#[trigger] ps[j]).name@ == k;
            if j < ps.len() - 1 {
                assert(ps.drop_last()[j] == ps[j]);
            }
        }
    }
}

/// No two parameters have the same name.
pub open spec fn params_distinct(ps: Seq<FuncParam>) -> bool {
    forall|a: int, b: int| 0 <= a < b < ps.len() ==> (#[trigger] ps[a]).name@ != (#[trigger] ps[b]).name@
}

/// Diagnostics were only added to, and errors did not disappear.
pub open spec fn grows(a: Seq<DiagnosticView>, b: Seq<DiagnosticView>) -> bool {
    &&& extends(a, b)
    &&& error_count(a) <= error_count(b)
}

/// Checks a program: declarations, types, capabilities and rights. Gives the
/// semantic model when no error has been reported, counting errors reported
/// before the call. Every function of a program it accepts is well typed: every
/// expression of it has a type, and the variables it reads (outside interpolated
/// strings) and assigns are allowed by its right and by their capabilities.
/// Conversely, a program without global variables and interpolated strings that
/// is typed in this sense is accepted.
pub fn analyze(program: &Program, modules: ModuleRegistry, diagnostics: &mut Diagnostics) -> (r:
    Option<SemanticModel>)
    ensures
        !has_error(old(diagnostics)@) && program_typed(program.body.items@, modules) ==> r is Some,
        first_function(program.body.items@, "main"@) is None ==> r is None && reported(final(diagnostics)@,
            error_at(None, "Required function main() is missing"@)),
        first_function(program.body.items@, "main"@) matches Some(f) ==> (!main_params_ok(f) ==> r is None
            && reported(final(diagnostics)@, error_at(Some(f.span), "main() must be either main() or main(argc: int, argv: string[])"@))),
        first_function(program.body.items@, "main"@) matches Some(f) ==> (f.return_type != ValueType::Void ==> r is None
            && reported(final(diagnostics)@, error_at(Some(f.span), "main() must have return type void"@))),
        grows(old(diagnostics)@, final(diagnostics)@),
        r is Some <==> !has_error(final(diagnostics)@),
        r is Some ==> (first_function(program.body.items@, "main"@) matches Some(f)
            && main_signature_ok(f)),
        r is Some ==> forall|i: int|
            0 <= i < program.body.items@.len() ==> (#[trigger] program.body.items@[i] matches Item::Func(
                f,
            ) ==> (f.return_type != ValueType::Void ==> body_has_return(f.body@))),
        r matches Some(m) ==> signatures_recorded(
            m.functions,
            program.body.items@,
            program.body.items@.len() as int,
        ),
        r is Some ==> function_names_distinct(program.body.items@, program.body.items@.len() as int),
        r is Some ==> entitlements_declared(program.body.items@, program.body.items@.len() as int),
        r matches Some(m) ==> forall|i: int|
            0 <= i < program.body.items@.len() ==> (#[trigger] program.body.items@[i] matches Item::Func(
                f,
            ) ==> params_distinct(f.params@) && block_typed(
                f.body@,
                params_scope(f.params@),
                m.globals,
                m.functions,
                m.modules,
                f.return_type,
                declared_right_allows(program.body.items@, f, Operation::Write),
                declared_capability_allows(program.body.items@, Operation::Write),
                declared_right_allows(program.body.items@, f, Operation::Read),
                declared_capability_allows(program.body.items@, Operation::Read),
            )),
{
    let analyzer = SemanticAnalyzer::new(modules);
    analyzer.analyze_program(program, diagnostics)
}

/// The globals other than `name` whose type is known, in the order they were declared.
pub open spec fn other_typed_globals(
    entries: Seq<(String, VariableInfo)>,
    name: Seq<char>,
) -> Seq<(String, VariableInfo)>
    decreases entries.len(),
{
    if entries.len() == 0 {
        Seq::empty()
    } else {
        let rest = other_typed_globals(entries.drop_last(), name);
        let e = entries.last();
        if e.0@ != name && e.1.ty != ValueType::Void {
            rest.push(e)
        } else {
            rest
        }
    }
}

/// The scope in which the initializer of the global `name` is typed: every other
/// global whose type is known.
pub open spec fn initializer_scope(globals: NameMap<VariableInfo>, name: Seq<char>) -> spec_fn(
    Seq<char>,
) -> Option<VariableInfo> {
    |k: Seq<char>| lookup(other_typed_globals(globals.entries(), name), k)
}

/// What a global's entry becomes once its initializer has the type `t`: the declared
/// type where there is one, else `t`; where the initializer has no type, or the
/// global has no entry, nothing changes.
pub open spec fn retyped(info: Option<VariableInfo>, decl: VarDecl, t: Option<ValueType>) -> Option<
    VariableInfo,
> {
    match (info, t) {
        (Some(g), Some(ty)) => Some(
            VariableInfo {
                ty: match decl.explicit_type {
                    Some(x) => x,
                    None => ty,
                },
                entitlement: g.entitlement,
                span: g.span,
            },
        ),
        _ => info,
    }
}

struct SemanticAnalyzer {
    capabilities: NameMap<PermissionSet>,
    rights: NameMap<PermissionSet>,
    globals: NameMap<VariableInfo>,
    functions: NameMap<FunctionInfo>,
    modules: ModuleRegistry,
}

impl SemanticAnalyzer {
    fn new(modules: ModuleRegistry) -> (a: SemanticAnalyzer)
        ensures
            forall|k: Seq<char>| a.functions.get_spec(k) is None,
            forall|k: Seq<char>| a.capabilities.get_spec(k) is None,
            forall|k: Seq<char>| a.rights.get_spec(k) is None,
            forall|k: Seq<char>| a.globals.get_spec(k) is None,
            a.modules == modules,
    {
        SemanticAnalyzer {
            capabilities: NameMap::new(),
            rights: NameMap::new(),
            globals: NameMap::new(),
            functions: NameMap::new(),
            modules,
        }
    }

    fn analyze_program(self, program: &Program, diagnostics: &mut Diagnostics) -> (r: Option<
        SemanticModel,
    >)
        requires
            forall|k: Seq<char>| self.functions.get_spec(k) is None,
            forall|k: Seq<char>| self.capabilities.get_spec(k) is None,
            forall|k: Seq<char>| self.rights.get_spec(k) is None,
            forall|k: Seq<char>| self.globals.get_spec(k) is None,
        ensures
            !has_error(old(diagnostics)@) && program_typed(program.body.items@, self.modules) ==> r is Some,
            first_function(program.body.items@, "main"@) is None ==> r is None && reported(final(diagnostics)@,
                error_at(None, "Required function main() is missing"@)),
            first_function(program.body.items@, "main"@) matches Some(f) ==> (!main_params_ok(f) ==> r is None
                && reported(final(diagnostics)@, error_at(Some(f.span), "main() must be either main() or main(argc: int, argv: string[])"@))),
            first_function(program.body.items@, "main"@) matches Some(f) ==> (f.return_type != ValueType::Void ==> r is None
                && reported(final(diagnostics)@, error_at(Some(f.span), "main() must have return type void"@))),
            grows(old(diagnostics)@, final(diagnostics)@),
            r is Some <==> !has_error(final(diagnostics)@),
            r is Some ==> (first_function(program.body.items@, "main"@) matches Some(f)
                && main_signature_ok(f)),
            r is Some ==> forall|i: int|
                0 <= i < program.body.items@.len() ==> (#[trigger] program.body.items@[i] matches Item::Func(
                    f,
                ) ==> (f.return_type != ValueType::Void ==> body_has_return(f.body@))),
            r matches Some(m) ==> signatures_recorded(
                m.functions,
                program.body.items@,
                program.body.items@.len() as int,
            ),
            r is Some ==> function_names_distinct(
                program.body.items@,
                program.body.items@.len() as int,
            ),
            r is Some ==> entitlements_declared(program.body.items@, program.body.items@.len() as int),
            r matches Some(m) ==> forall|i: int|
                0 <= i < program.body.items@.len() ==> (#[trigger] program.body.items@[i] matches Item::Func(
                    f,
                ) ==> params_distinct(f.params@) && block_typed(
                    f.body@,
                    params_scope(f.params@),
                    m.globals,
                    m.functions,
                    m.modules,
                    f.return_type,
                    declared_right_allows(program.body.items@, f, Operation::Write),
                declared_capability_allows(program.body.items@, Operation::Write),
                declared_right_allows(program.body.items@, f, Operation::Read),
                declared_capability_allows(program.body.items@, Operation::Read),
                )),
    {
        let ghost g0 = self.globals;
        let ghost m0 = self.modules;
        let ghost good = !has_error(old(diagnostics)@) && program_typed(program.body.items@, self.modules);
        let mut analyzer = self;
        let ghost d0 = diagnostics@;
        let items = &program.body.items;
        proof {
            crate::diagnostics::lemma_has_error_iff_count(d0);
        }
        let mut i: usize = 0;
        while i < items.len()
            invariant
                i <= items@.len(),
                grows(d0, diagnostics@),
                good == (!has_error(d0) && program_typed(items@, m0)),
                good ==> clean(d0, diagnostics@) && analyzer.globals == g0 && analyzer.modules == m0,
                forall|k: Seq<char>| #[trigger] analyzer.capabilities.get_spec(k) is Some ==> exists|j: int|
                    0 <= j < i && item_capability_name(#[trigger] items@[j]) == Some(k),
                forall|k: Seq<char>| #[trigger] analyzer.rights.get_spec(k) is Some ==> exists|j: int|
                    0 <= j < i && item_right_name(#[trigger] items@[j]) == Some(k),
                forall|k: Seq<char>| analyzer.functions.get_spec(k) is None,
                forall|k: Seq<char>|
                    #[trigger] analyzer.capabilities.get_spec(k) is Some ==> declares_capability(
                        items@,
                        k,
                    ),
                forall|k: Seq<char>|
                    #[trigger] analyzer.rights.get_spec(k) is Some ==> declares_right(items@, k),
                error_count(diagnostics@) == error_count(d0) ==> forall|j: int|
                    0 <= j < i ==> (#[trigger] items@[j] matches Item::Right(rd) ==> rights_entry(
                        analyzer.rights,
                        rd,
                    )),
                error_count(diagnostics@) == error_count(d0) ==> forall|j: int|
                    0 <= j < i ==> (#[trigger] items@[j] matches Item::Capability(cd) ==> capabilities_entry(
                        analyzer.capabilities,
                        cd,
                    )),
            decreases items.len() - i,
        {
            let ghost rights_before = analyzer.rights;
            let ghost caps_before = analyzer.capabilities;
            proof {
                if good {
                    if let Item::Capability(cd) = items@[i as int] {
                        if caps_before.get_spec(cd.name@) is Some {
                            let j = choose|j: int| 0 <= j < i && item_capability_name(#[trigger] items@[j]) == Some(cd.name@);
                            assert(item_capability_name(items@[i as int]) == Some(cd.name@));
                        }
                    }
                    if let Item::Right(rd) = items@[i as int] {
                        if rights_before.get_spec(rd.name@) is Some {
                            let j = choose|j: int| 0 <= j < i && item_right_name(#[trigger] items@[j]) == Some(rd.name@);
                            assert(item_right_name(items@[i as int]) == Some(rd.name@));
                        }
                    }
                }
            }
            proof {
                assert(item_capability_name(items@[i as int]) == item_capability_name(items@[i as int]));
                assert(item_right_name(items@[i as int]) == item_right_name(items@[i as int]));
            }
            match &items[i] {
                Item::Capability(decl) => analyzer.collect_capability(decl, diagnostics),
                Item::Right(decl) => analyzer.collect_right(decl, diagnostics),
                _ => {},
            }
            proof {
                assert forall|k: Seq<char>| #[trigger] analyzer.capabilities.get_spec(k) is Some implies exists|j: int|
                    0 <= j < i + 1 && item_capability_name(#[trigger] items@[j]) == Some(k) by {
                    if caps_before.get_spec(k) is Some {
                        let j = choose|j: int| 0 <= j < i && item_capability_name(#[trigger] items@[j]) == Some(k);
                    } else {
                        assert(item_capability_name(items@[i as int]) == Some(k));
                    }
                }
                assert forall|k: Seq<char>| #[trigger] analyzer.rights.get_spec(k) is Some implies exists|j: int|
                    0 <= j < i + 1 && item_right_name(#[trigger] items@[j]) == Some(k) by {
                    if rights_before.get_spec(k) is Some {
                        let j = choose|j: int| 0 <= j < i && item_right_name(#[trigger] items@[j]) == Some(k);
                    } else {
                        assert(item_right_name(items@[i as int]) == Some(k));
                    }
                }
            }
            proof {
                if error_count(diagnostics@) == error_count(d0) {
                    assert forall|j: int| 0 <= j < i + 1 implies (#[trigger] items@[j] matches Item::Right(rd)
                        ==> rights_entry(analyzer.rights, rd)) by {
                        if let Item::Right(rd) = items@[j] {
                            if j < i {
                                assert(rights_entry(rights_before, rd));
                                if let Item::Right(now) = items@[i as int] {
                                    assert(rd.name@ != now.name@);
                                }
                            }
                        }
                    }
                    assert forall|j: int| 0 <= j < i + 1 implies (#[trigger] items@[j] matches Item::Capability(cd)
                        ==> capabilities_entry(analyzer.capabilities, cd)) by {
                        if let Item::Capability(cd) = items@[j] {
                            if j < i {
                                assert(capabilities_entry(caps_before, cd));
                                if let Item::Capability(now) = items@[i as int] {
                                    assert(cd.name@ != now.name@);
                                }
                            }
                        }
                    }
                }
            }
            i += 1;
        }

        let ghost d1 = diagnostics@;
        let ghost c1 = analyzer.capabilities;
        let ghost r1 = analyzer.rights;
        let mut i: usize = 0;
        while i < items.len()
            invariant
                i <= items@.len(),
                grows(d1, diagnostics@),
                good == (!has_error(d0) && program_typed(items@, m0)),
                good ==> clean(d0, diagnostics@) && analyzer.globals == g0 && analyzer.modules == m0,
                good ==> forall|j: int| 0 <= j < items@.len() ==> (#[trigger] items@[j] matches Item::Right(rd) ==> rights_entry(r1, rd)),
                forall|k: Seq<char>| #[trigger] analyzer.functions.get_spec(k) is Some <==> first_function(items@.take(i as int), k) is Some,
                first_function(items@.take(i as int), "main"@) matches Some(f) ==> (!main_params_ok(f) ==> reported(diagnostics@,
                    error_at(Some(f.span), "main() must be either main() or main(argc: int, argv: string[])"@))),
                first_function(items@.take(i as int), "main"@) matches Some(f) ==> (f.return_type != ValueType::Void ==> reported(diagnostics@,
                    error_at(Some(f.span), "main() must have return type void"@))),
                error_count(diagnostics@) == error_count(d1) ==> ((analyzer.functions.get_spec(
                    "main"@,
                ) is Some <==> first_function(items@.take(i as int), "main"@) is Some) && (
                first_function(items@.take(i as int), "main"@) matches Some(f)
                    ==> main_signature_ok(f))),
                error_count(diagnostics@) == error_count(d1) ==> signatures_recorded(
                    analyzer.functions,
                    items@,
                    i as int,
                ),
                error_count(diagnostics@) == error_count(d1) ==> function_names_distinct(
                    items@,
                    i as int,
                ),
                analyzer.capabilities == c1,
                analyzer.rights == r1,
                analyzer.capabilities == c1,
                forall|k: Seq<char>|
                    #[trigger] c1.get_spec(k) is Some ==> declares_capability(items@, k),
                forall|k: Seq<char>| #[trigger] r1.get_spec(k) is Some ==> declares_right(items@, k),
                error_count(diagnostics@) == error_count(d1) ==> entitlements_declared(items@, i as int),
            decreases items.len() - i,
        {
            let ghost before = diagnostics@;
            proof {
                assert(items@.take(i + 1) =~= items@.take(i as int).push(items@[i as int]));
                lemma_first_function_push(items@.take(i as int), items@[i as int], "main"@);
            }
            let ghost f_before = analyzer.functions;
            proof {
                if good {
                    if let Item::Func(fd) = items@[i as int] {
                        if first_function(items@.take(i as int), fd.name@) is Some {
                            lemma_first_function_found(items@.take(i as int), fd.name@);
                            let j = choose|j: int| 0 <= j < items@.take(i as int).len() && items@.take(i as int)[j] == Item::Func(first_function(items@.take(i as int), fd.name@)->0);
                            assert(items@[j] == items@.take(i as int)[j]);
                        }
                        lemma_first_function_push(items@.take(i as int), items@[i as int], fd.name@);
                        if fd.name@ == "main"@ {
                            lemma_first_function_stable(items@, i + 1, items@.len() as int, "main"@);
                            assert(items@.take(items@.len() as int) =~= items@);
                        } else if let Some(rn) = fd.right {
                            assert(entitlements_declared(items@, items@.len() as int));
                            assert(declares_right(items@, rn@));
                            let w = choose|w: int| 0 <= w < items@.len() && #[trigger] item_right_name(items@[w]) == Some(rn@);
                            if let Item::Right(rd) = items@[w] {
                                assert(rights_entry(r1, rd));
                            }
                        }
                    }
                }
            }
            match &items[i] {
                Item::Var(decl) => analyzer.collect_global_var_signature(decl, diagnostics),
                Item::Func(decl) => analyzer.collect_function_signature(decl, diagnostics),
                _ => {},
            }
            proof {
                assert forall|k: Seq<char>| #[trigger] analyzer.functions.get_spec(k) is Some <==> first_function(items@.take(i + 1), k) is Some by {
                    lemma_first_function_push(items@.take(i as int), items@[i as int], k);
                }
                if let Some(mf) = first_function(items@.take(i as int), "main"@) {
                    let e1 = error_at(Some(mf.span), "main() must be either main() or main(argc: int, argv: string[])"@);
                    let e2 = error_at(Some(mf.span), "main() must have return type void"@);
                    if !main_params_ok(mf) {
                        lemma_reported_kept(before, diagnostics@, e1);
                    }
                    if mf.return_type != ValueType::Void {
                        lemma_reported_kept(before, diagnostics@, e2);
                    }
                }
                if error_count(diagnostics@) == error_count(d1) {
                    assert forall|j: int| 0 <= j < i + 1 implies (#[trigger] items@[j] matches Item::Func(
                        f,
                    ) ==> (analyzer.functions.get_spec(f.name@) matches Some(info) && has_signature(
                        info,
                        f,
                    ))) by {
                        if j < i {
                            if let Item::Func(f) = items@[j] {
                                assert(f_before.get_spec(f.name@) is Some);
                            }
                        }
                    }
                    assert forall|a: int, b: int| 0 <= a < b < i + 1 implies (#[trigger] items@[a] matches Item::Func(
                        f,
                    ) ==> (#[trigger] items@[b] matches Item::Func(g) ==> f.name@ != g.name@)) by {
                        if b == i {
                            if let Item::Func(f) = items@[a] {
                                assert(f_before.get_spec(f.name@) is Some);
                            }
                        }
                    }
                }
            }
            i += 1;
        }
        proof {
            assert(items@.take(items@.len() as int) =~= items@);
        }

        let ghost main_missing = error_at(None, "Required function main() is missing"@);
        proof {
            assert(items@.take(items@.len() as int) =~= items@);
        }
        if !analyzer.functions.contains_key("main") {
            diagnostics.error(None, string_of("Required function main() is missing"));
            assert(diagnostics@[diagnostics@.len() - 1] == main_missing);
        }
        let ghost d2 = diagnostics@;
        let ghost f2 = analyzer.functions;
        assert(error_count(d2) == error_count(d1) ==> (first_function(items@, "main"@) matches Some(
            f,
        ) && main_signature_ok(f)));

        let mut i: usize = 0;
        while i < items.len()
            invariant
                i <= items@.len(),
                grows(d2, diagnostics@),
                analyzer.functions == f2,
                analyzer.rights == r1,
                analyzer.capabilities == c1,
                good == (!has_error(d0) && program_typed(items@, m0)),
                good ==> diagnostics@ == d2 && analyzer.globals == g0 && analyzer.modules == m0,
            decreases items.len() - i,
        {
            proof {
                if good {
                    assert(!(items@[i as int] is Var));
                }
            }
            match &items[i] {
                Item::Var(decl) => analyzer.analyze_global_var_initializer(decl, diagnostics),
                _ => {},
            }
            i += 1;
        }

        let ghost d3 = diagnostics@;
        let ghost g3 = analyzer.globals;
        let ghost m3 = analyzer.modules;
        proof {
            if error_count(d1) == error_count(d0) {
                assert forall|c: Seq<char>| #[trigger] capability_allows(c1, Operation::Write)(c)
                    == declared_capability_allows(items@, Operation::Write)(c) by {
                    if let Some(set) = c1.get_spec(c) {
                        assert(declares_capability(items@, c));
                        let w = choose|w: int| 0 <= w < items@.len() && #[trigger] item_capability_name(items@[w]) == Some(c);
                        if let Item::Capability(cd) = items@[w] {
                            assert(capabilities_entry(c1, cd));
                        }
                        assert forall|q: int| 0 <= q < items@.len() implies (#[trigger] items@[q] matches Item::Capability(cd) ==> (cd.name@
                            == c ==> (permission_atoms(cd.initializer) matches Some(atoms) && atoms_permit(atoms, Operation::Write) == set.permits(Operation::Write)))) by {
                            if let Item::Capability(cd) = items@[q] {
                                assert(capabilities_entry(c1, cd));
                            }
                        }
                    } else {
                        assert forall|q: int| 0 <= q < items@.len() implies !(#[trigger] items@[q] matches Item::Capability(cd) && cd.name@ == c) by {
                            if let Item::Capability(cd) = items@[q] {
                                assert(capabilities_entry(c1, cd));
                            }
                        }
                    }
                }
                assert(capability_allows(c1, Operation::Write) =~= declared_capability_allows(items@, Operation::Write));
                assert forall|j: int| 0 <= j < items@.len() implies (#[trigger] items@[j] matches Item::Func(f)
                    ==> function_may(r1, f, Operation::Write) == declared_right_allows(items@, f, Operation::Write)) by {
                    if let Item::Func(f) = items@[j] {
                        if f.name@ != "main"@ {
                            if let Some(rn) = f.right {
                                if let Some(set) = r1.get_spec(rn@) {
                                    assert(declares_right(items@, rn@));
                                    let w = choose|w: int| 0 <= w < items@.len() && #[trigger] item_right_name(items@[w]) == Some(rn@);
                                    if let Item::Right(rd) = items@[w] {
                                        assert(rights_entry(r1, rd));
                                    }
                                    assert forall|q: int| 0 <= q < items@.len() implies (#[trigger] items@[q] matches Item::Right(rd) ==> (rd.name@
                                        == rn@ ==> (permission_atoms(rd.initializer) matches Some(atoms) && atoms_permit(atoms, Operation::Write) == set.permits(Operation::Write)))) by {
                                        if let Item::Right(rd) = items@[q] {
                                            assert(rights_entry(r1, rd));
                                        }
                                    }
                                } else {
                                    assert forall|q: int| 0 <= q < items@.len() implies !(#[trigger] items@[q] matches Item::Right(rd) && rd.name@ == rn@) by {
                                        if let Item::Right(rd) = items@[q] {
                                            assert(rights_entry(r1, rd));
                                        }
                                    }
                                }
                            }
                        }
                    }
                }
            }
        }
        proof {
            if error_count(d1) == error_count(d0) {
                assert forall|c: Seq<char>| #[trigger] capability_allows(c1, Operation::Read)(c)
                    == declared_capability_allows(items@, Operation::Read)(c) by {
                    if let Some(set) = c1.get_spec(c) {
                        assert(declares_capability(items@, c));
                        let w = choose|w: int| 0 <= w < items@.len() && #[trigger] item_capability_name(items@[w]) == Some(c);
                        if let Item::Capability(cd) = items@[w] {
                            assert(capabilities_entry(c1, cd));
                        }
                        assert forall|q: int| 0 <= q < items@.len() implies (#[trigger] items@[q] matches Item::Capability(cd) ==> (cd.name@
                            == c ==> (permission_atoms(cd.initializer) matches Some(atoms) && atoms_permit(atoms, Operation::Read) == set.permits(Operation::Read)))) by {
                            if let Item::Capability(cd) = items@[q] {
                                assert(capabilities_entry(c1, cd));
                            }
                        }
                    } else {
                        assert forall|q: int| 0 <= q < items@.len() implies !(#[trigger] items@[q] matches Item::Capability(cd) && cd.name@ == c) by {
                            if let Item::Capability(cd) = items@[q] {
                                assert(capabilities_entry(c1, cd));
                            }
                        }
                    }
                }
                assert(capability_allows(c1, Operation::Read) =~= declared_capability_allows(items@, Operation::Read));
                assert forall|j: int| 0 <= j < items@.len() implies (#[trigger] items@[j] matches Item::Func(f)
                    ==> function_may(r1, f, Operation::Read) == declared_right_allows(items@, f, Operation::Read)) by {
                    if let Item::Func(f) = items@[j] {
                        if f.name@ != "main"@ {
                            if let Some(rn) = f.right {
                                if let Some(set) = r1.get_spec(rn@) {
                                    assert(declares_right(items@, rn@));
                                    let w = choose|w: int| 0 <= w < items@.len() && #[trigger] item_right_name(items@[w]) == Some(rn@);
                                    if let Item::Right(rd) = items@[w] {
                                        assert(rights_entry(r1, rd));
                                    }
                                    assert forall|q: int| 0 <= q < items@.len() implies (#[trigger] items@[q] matches Item::Right(rd) ==> (rd.name@
                                        == rn@ ==> (permission_atoms(rd.initializer) matches Some(atoms) && atoms_permit(atoms, Operation::Read) == set.permits(Operation::Read)))) by {
                                        if let Item::Right(rd) = items@[q] {
                                            assert(rights_entry(r1, rd));
                                        }
                                    }
                                } else {
                                    assert forall|q: int| 0 <= q < items@.len() implies !(#[trigger] items@[q] matches Item::Right(rd) && rd.name@ == rn@) by {
                                        if let Item::Right(rd) = items@[q] {
                                            assert(rights_entry(r1, rd));
                                        }
                                    }
                                }
                            }
                        }
                    }
                }
            }
        }

        proof {
            if error_count(d1) == error_count(d0) {
                assert forall|c: Seq<char>| #[trigger] known_capabilities(c1)(c) == declares_capability(items@, c) by {
                    if declares_capability(items@, c) {
                        let w = choose|w: int| 0 <= w < items@.len() && #[trigger] item_capability_name(items@[w]) == Some(c);
                        if let Item::Capability(cd) = items@[w] {
                            assert(capabilities_entry(c1, cd));
                        }
                    }
                }
                assert(known_capabilities(c1) =~= (|c: Seq<char>| declares_capability(items@, c)));
            }
            if good {
                assert(items@.take(items@.len() as int) =~= items@);
                assert(functions_exactly(f2, items@));
                assert(forall|k: Seq<char>| g3.get_spec(k) is None);
                assert(functions_typed(items@, g3, f2, m3));
            }
        }
        let mut i: usize = 0;
        while i < items.len()
            invariant
                i <= items@.len(),
                grows(d3, diagnostics@),
                good ==> diagnostics@ == d3 && clean(d0, d3),
                good ==> known_capabilities(c1) == (|c: Seq<char>| declares_capability(items@, c)),
                good ==> capability_allows(c1, Operation::Write) == declared_capability_allows(items@, Operation::Write),
                good ==> capability_allows(c1, Operation::Read) == declared_capability_allows(items@, Operation::Read),
                good ==> forall|j: int| 0 <= j < items@.len() ==> (#[trigger] items@[j] matches Item::Func(f)
                    ==> function_may(r1, f, Operation::Write) == declared_right_allows(items@, f, Operation::Write)
                    && function_may(r1, f, Operation::Read) == declared_right_allows(items@, f, Operation::Read)),
                good ==> functions_typed(items@, g3, f2, m3),
                analyzer.functions == f2,
                analyzer.globals == g3,
                analyzer.modules == m3,
                analyzer.rights == r1,
                analyzer.capabilities == c1,
                error_count(diagnostics@) == error_count(d3) ==> forall|j: int|
                    0 <= j < i ==> (#[trigger] items@[j] matches Item::Func(f) ==> params_distinct(f.params@)
                        && block_typed(f.body@, params_scope(f.params@), g3, f2, m3, f.return_type, function_may(r1, f, Operation::Write), capability_allows(c1, Operation::Write), function_may(r1, f, Operation::Read), capability_allows(c1, Operation::Read))),
                error_count(diagnostics@) == error_count(d3) ==> forall|j: int|
                    0 <= j < i ==> (#[trigger] items@[j] matches Item::Func(f) ==> (f.return_type
                        != ValueType::Void ==> body_has_return(f.body@))),
            decreases items.len() - i,
        {
            match &items[i] {
                Item::Func(func) => analyzer.analyze_function(func, diagnostics),
                _ => {},
            }
            i += 1;
        }
        proof {
            crate::diagnostics::lemma_has_error_iff_count(diagnostics@);
            if let Some(mf) = first_function(items@, "main"@) {
                let e1 = error_at(Some(mf.span), "main() must be either main() or main(argc: int, argv: string[])"@);
                let e2 = error_at(Some(mf.span), "main() must have return type void"@);
                if !main_params_ok(mf) {
                    lemma_reported_kept(d2, d3, e1);
                    lemma_reported_kept(d3, diagnostics@, e1);
                    let k = choose|k: int| 0 <= k < diagnostics@.len() && diagnostics@[k] == e1;
                    assert(has_error(diagnostics@));
                }
                if mf.return_type != ValueType::Void {
                    lemma_reported_kept(d2, d3, e2);
                    lemma_reported_kept(d3, diagnostics@, e2);
                    let k = choose|k: int| 0 <= k < diagnostics@.len() && diagnostics@[k] == e2;
                    assert(has_error(diagnostics@));
                }
            } else {
                lemma_reported_kept(d2, d3, main_missing);
                lemma_reported_kept(d3, diagnostics@, main_missing);
                let k = choose|k: int| 0 <= k < diagnostics@.len() && diagnostics@[k] == main_missing;
                assert(has_error(diagnostics@));
            }
        }
        if diagnostics.has_errors() {
            return None;
        }
        Some(
            SemanticModel {
                globals: analyzer.globals,
                functions: analyzer.functions,
                modules: analyzer.modules,
            },
        )
    }

    fn collect_capability(&mut self, decl: &CapabilityDecl, diagnostics: &mut Diagnostics)
        ensures
            grows(old(diagnostics)@, final(diagnostics)@),
            final(self).functions == old(self).functions,
            final(self).rights == old(self).rights,
            final(self).globals == old(self).globals,
            final(self).modules == old(self).modules,
            old(self).capabilities.get_spec(decl.name@) is None && permission_atoms(decl.initializer) is Some
                ==> clean(old(diagnostics)@, final(diagnostics)@),
            forall|k: Seq<char>|
                #[trigger] final(self).capabilities.get_spec(k) is Some ==> (old(
                    self,
                ).capabilities.get_spec(k) is Some || k == decl.name@),
            forall|k: Seq<char>| k != decl.name@ ==> #[trigger] final(self).capabilities.get_spec(k) == old(self).capabilities.get_spec(k),
            clean(old(diagnostics)@, final(diagnostics)@) ==> {
                &&& old(self).capabilities.get_spec(decl.name@) is None
                &&& final(self).capabilities.get_spec(decl.name@) matches Some(set)
                &&& permission_atoms(decl.initializer) == Some(set.atoms())
                &&& forall|op: Operation| #[trigger] set.permits(op) == atoms_permit(set.atoms(), op)
            },
    {
        if self.capabilities.contains_key(decl.name.as_str()) {
            let mut message = string_of("Capability '");
            push_str(&mut message, decl.name.as_str());
            push_str(&mut message, "' is already declared");
            diagnostics.error(Some(decl.span), message);
            return;
        }
        let atoms = match self.extract_permission_atoms(&decl.initializer, "Capability", diagnostics) {
            Some(a) => a,
            None => {
                return;
            },
        };
        let (set, warnings) = PermissionSet::from_atoms(atoms);
        let mut k: usize = 0;
        let ghost d0 = diagnostics@;
        while k < warnings.len()
            invariant
                k <= warnings@.len(),
                grows(d0, diagnostics@),
                clean(d0, diagnostics@),
            decreases warnings.len() - k,
        {
            diagnostics.warning(Some(decl.span), warnings[k].clone());
            k += 1;
        }
        self.capabilities.insert(decl.name.clone(), set);
    }

    fn collect_right(&mut self, decl: &RightDecl, diagnostics: &mut Diagnostics)
        ensures
            grows(old(diagnostics)@, final(diagnostics)@),
            final(self).functions == old(self).functions,
            final(self).capabilities == old(self).capabilities,
            final(self).globals == old(self).globals,
            final(self).modules == old(self).modules,
            old(self).rights.get_spec(decl.name@) is None && permission_atoms(decl.initializer) is Some
                ==> clean(old(diagnostics)@, final(diagnostics)@),
            forall|k: Seq<char>|
                #[trigger] final(self).rights.get_spec(k) is Some ==> (old(self).rights.get_spec(
                    k,
                ) is Some || k == decl.name@),
            forall|k: Seq<char>| k != decl.name@ ==> #[trigger] final(self).rights.get_spec(k) == old(self).rights.get_spec(k),
            clean(old(diagnostics)@, final(diagnostics)@) ==> {
                &&& old(self).rights.get_spec(decl.name@) is None
                &&& final(self).rights.get_spec(decl.name@) matches Some(set)
                &&& permission_atoms(decl.initializer) == Some(set.atoms())
                &&& forall|op: Operation| #[trigger] set.permits(op) == atoms_permit(set.atoms(), op)
            },
    {
        if self.rights.contains_key(decl.name.as_str()) {
            let mut message = string_of("Right '");
            push_str(&mut message, decl.name.as_str());
            push_str(&mut message, "' is already declared");
            diagnostics.error(Some(decl.span), message);
            return;
        }
        let atoms = match self.extract_permission_atoms(&decl.initializer, "Right", diagnostics) {
            Some(a) => a,
            None => {
                return;
            },
        };
        let (set, warnings) = PermissionSet::from_atoms(atoms);
        let mut k: usize = 0;
        let ghost d0 = diagnostics@;
        while k < warnings.len()
            invariant
                k <= warnings@.len(),
                grows(d0, diagnostics@),
                clean(d0, diagnostics@),
            decreases warnings.len() - k,
        {
            diagnostics.warning(Some(decl.span), warnings[k].clone());
            k += 1;
        }
        self.rights.insert(decl.name.clone(), set);
    }

    fn extract_permission_atoms(
        &self,
        initializer: &Expr,
        expected_kind: &str,
        diagnostics: &mut Diagnostics,
    ) -> (r: Option<Vec<String>>)
        ensures
            grows(old(diagnostics)@, final(diagnostics)@),
            r is None ==> error_count(old(diagnostics)@) < error_count(final(diagnostics)@),
            r is Some ==> clean(old(diagnostics)@, final(diagnostics)@),
            r matches Some(a) ==> permission_atoms(*initializer) == Some(a@),
            permission_atoms(*initializer) is Some ==> r is Some,
    {
        let (kind, args, span) = match initializer {
            Expr::NewObject { kind, args, span } => (kind, args, span),
            _ => {
                let mut message = string_of("Expected constructor of form new ");
                push_str(&mut message, expected_kind);
                push_str(&mut message, "(...), got a different expression");
                diagnostics.error(Some(initializer.span()), message);
                return None;
            },
        };
        let ghost d0 = diagnostics@;
        if !str_eq(kind.as_str(), expected_kind) {
            let mut message = string_of("Constructor '");
            push_str(&mut message, kind.as_str());
            push_str(&mut message, "' is used for ");
            push_str(&mut message, expected_kind);
            push_str(&mut message, ", expected '");
            push_str(&mut message, expected_kind);
            push_str(&mut message, "'");
            diagnostics.warning(Some(*span), message);
        }
        let ghost d1 = diagnostics@;
        let mut atoms: Vec<String> = Vec::new();
        let mut i: usize = 0;
        while i < args.len()
            invariant
                i <= args@.len(),
                diagnostics@ == d1,
                grows(old(diagnostics)@, d1),
                atoms@ == args@.take(i as int).map_values(|a: Expr| atom_text(a)),
                forall|j: int| 0 <= j < i ==> (#[trigger] args@[j] is Identifier || args@[j] is StringLiteral),
                *initializer == (Expr::NewObject { kind: *kind, args: *args, span: *span }),
            decreases args.len() - i,
        {
            proof {
                assert(args@.take(i + 1).map_values(|a: Expr| atom_text(a)) =~= args@.take(i as int).map_values(
                    |a: Expr| atom_text(a),
                ).push(atom_text(args@[i as int])));
            }
            match &args[i] {
                Expr::Identifier(name, _) => atoms.push(name.clone()),
                Expr::StringLiteral(name, _) => atoms.push(name.clone()),
                _ => {
                    proof {
                        assert(*initializer == Expr::NewObject { kind: *kind, args: *args, span: *span });
                        assert(!(args@[i as int] is Identifier || args@[i as int] is StringLiteral));
                    }
                    diagnostics.error(
                        Some(args[i].span()),
                        string_of(
                            "Only identifiers or string literals are allowed in new Capability/new Right",
                        ),
                    );
                    return None;
                },
            }
            i += 1;
        }
        proof {
            assert(args@.take(args@.len() as int) =~= args@);
            assert(*initializer == Expr::NewObject { kind: *kind, args: *args, span: *span });
        }
        if atoms.len() == 0 {
            let mut message = string_of(expected_kind);
            push_str(&mut message, " declared without permissions (access denied by default)");
            diagnostics.warning(Some(*span), message);
        }
        Some(atoms)
    }

    fn collect_global_var_signature(&mut self, decl: &VarDecl, diagnostics: &mut Diagnostics)
        ensures
            grows(old(diagnostics)@, final(diagnostics)@),
            final(self).functions == old(self).functions,
            final(self).capabilities == old(self).capabilities,
            final(self).rights == old(self).rights,
            error_count(final(diagnostics)@) == error_count(old(diagnostics)@) ==> (decl.entitlement matches Some(
                c,
            ) ==> old(self).capabilities.get_spec(c@) is Some),
    {
        if self.globals.contains_key(decl.name.as_str()) {
            let mut message = string_of("Variable '");
            push_str(&mut message, decl.name.as_str());
            push_str(&mut message, "' is already declared");
            diagnostics.error(Some(decl.span), message);
            return;
        }
        match &decl.entitlement {
            Some(capability) => {
                if !self.capabilities.contains_key(capability.as_str()) {
                    let mut message = string_of("Capability '");
                    push_str(&mut message, capability.as_str());
                    push_str(&mut message, "' not found");
                    diagnostics.error(Some(decl.span), message);
                }
            },
            None => {},
        }
        let entitlement = match &decl.entitlement {
            Some(e) => Some(e.clone()),
            None => None,
        };
        self.globals.insert(
            decl.name.clone(),
            VariableInfo { ty: ValueType::Void, entitlement, span: decl.span },
        );
    }

    fn collect_function_signature(&mut self, decl: &FuncDecl, diagnostics: &mut Diagnostics)
        ensures
            grows(old(diagnostics)@, final(diagnostics)@),
            forall|k: Seq<char>|
                k != decl.name@ ==> #[trigger] final(self).functions.get_spec(k) == old(
                    self,
                ).functions.get_spec(k),
            old(self).functions.get_spec(decl.name@) is Some ==> final(self).functions.get_spec(
                decl.name@,
            ) == old(self).functions.get_spec(decl.name@),
            old(self).functions.get_spec(decl.name@) is None ==> (final(self).functions.get_spec(
                decl.name@,
            ) matches Some(info) && has_signature(info, *decl)),
            error_count(final(diagnostics)@) == error_count(old(diagnostics)@) ==> (old(
                self,
            ).functions.get_spec(decl.name@) is None && (decl.name@ == "main"@
                ==> main_signature_ok(*decl))),
            final(self).capabilities == old(self).capabilities,
            final(self).rights == old(self).rights,
            error_count(final(diagnostics)@) == error_count(old(diagnostics)@) ==> (decl.name@
                != "main"@ ==> (decl.right matches Some(r) ==> old(self).rights.get_spec(r@) is Some)),
            final(self).globals == old(self).globals,
            final(self).modules == old(self).modules,
            old(self).functions.get_spec(decl.name@) is None && (decl.name@ == "main"@ ==> main_signature_ok(*decl))
                && (decl.name@ != "main"@ ==> (decl.right matches Some(r) ==> old(self).rights.get_spec(r@) is Some))
                ==> clean(old(diagnostics)@, final(diagnostics)@),
            old(self).functions.get_spec(decl.name@) is None && decl.name@ == "main"@ && !main_params_ok(*decl)
                ==> reported(final(diagnostics)@, error_at(Some(decl.span), "main() must be either main() or main(argc: int, argv: string[])"@)),
            old(self).functions.get_spec(decl.name@) is None && decl.name@ == "main"@ && decl.return_type != ValueType::Void
                ==> reported(final(diagnostics)@, error_at(Some(decl.span), "main() must have return type void"@)),
    {
        if self.functions.contains_key(decl.name.as_str()) {
            let mut message = string_of("Function '");
            push_str(&mut message, decl.name.as_str());
            push_str(&mut message, "' is already declared");
            diagnostics.error(Some(decl.span), message);
            return;
        }
        let ghost d0 = diagnostics@;
        if str_eq(decl.name.as_str(), "main") {
            if decl.right.is_some() {
                diagnostics.warning(
                    Some(decl.span),
                    string_of("Rights on main are ignored; main always has full rights"),
                );
            }
            let params_ok = if decl.params.len() == 0 {
                true
            } else if decl.params.len() == 2 {
                let string_array = ValueType::Array(Box::new(ValueType::String));
                decl.params[0].ty.same(&ValueType::Int) && decl.params[1].ty.same(&string_array)
            } else {
                false
            };
            let ghost params_error = error_at(Some(decl.span), "main() must be either main() or main(argc: int, argv: string[])"@);
            if !params_ok {
                diagnostics.error(
                    Some(decl.span),
                    string_of("main() must be either main() or main(argc: int, argv: string[])"),
                );
                assert(diagnostics@[diagnostics@.len() - 1] == params_error);
            }
            let ghost before_return = diagnostics@;
            if !decl.return_type.same(&ValueType::Void) {
                diagnostics.error(Some(decl.span), string_of("main() must have return type void"));
                assert(diagnostics@[diagnostics@.len() - 1] == error_at(Some(decl.span), "main() must have return type void"@));
                proof {
                    if !params_ok {
                        lemma_reported_kept(before_return, diagnostics@, params_error);
                    }
                }
            }
        } else {
            match &decl.right {
                Some(right_name) => {
                    if !self.rights.contains_key(right_name.as_str()) {
                        let mut message = string_of("Right '");
                        push_str(&mut message, right_name.as_str());
                        push_str(&mut message, "' not found");
                        diagnostics.error(Some(decl.span), message);
                    }
                },
                None => {},
            }
        }
        let mut params: Vec<ValueType> = Vec::new();
        let mut i: usize = 0;
        while i < decl.params.len()
            invariant
                i <= decl.params@.len(),
                params@ == decl.params@.take(i as int).map_values(|p: FuncParam| p.ty),
            decreases decl.params.len() - i,
        {
            params.push(decl.params[i].ty.duplicate());
            assert(decl.params@.take(i + 1).map_values(|p: FuncParam| p.ty) =~= decl.params@.take(
                i as int,
            ).map_values(|p: FuncParam| p.ty).push(decl.params@[i as int].ty));
            i += 1;
        }
        assert(decl.params@.take(decl.params@.len() as int) =~= decl.params@);
        self.functions.insert(
            decl.name.clone(),
            FunctionInfo { params, return_type: decl.return_type.duplicate() },
        );
    }

    /// The type of a global's initializer, typed in the scope of the other globals.
    spec fn initializer_type(&self, decl: VarDecl) -> Option<ValueType> {
        expr_type(
            decl.initializer,
            initializer_scope(self.globals, decl.name@),
            self.globals,
            self.functions,
            self.modules,
        )
    }

    fn analyze_global_var_initializer(&mut self, decl: &VarDecl, diagnostics: &mut Diagnostics)
        ensures
            grows(old(diagnostics)@, final(diagnostics)@),
            final(self).functions == old(self).functions,
            final(self).rights == old(self).rights,
            final(self).capabilities == old(self).capabilities,
            final(self).modules == old(self).modules,
            forall|k: Seq<char>|
                k != decl.name@ ==> #[trigger] final(self).globals.get_spec(k) == old(self).globals.get_spec(k),
            exists|t: Option<ValueType>|
                final(self).globals.get_spec(decl.name@) == retyped(
                    old(self).globals.get_spec(decl.name@),
                    *decl,
                    t,
                ),
            interpolation_free(decl.initializer) || clean(old(diagnostics)@, final(diagnostics)@)
                ==> final(self).globals.get_spec(decl.name@) == retyped(
                old(self).globals.get_spec(decl.name@),
                *decl,
                old(self).initializer_type(*decl),
            ),
            clean(old(diagnostics)@, final(diagnostics)@) ==> (old(self).initializer_type(*decl) matches Some(ty)
                ==> (decl.explicit_type matches Some(x) ==> assignable(x, ty))),
            interpolation_free(decl.initializer) ==> (old(self).initializer_type(*decl) matches Some(ty)
                ==> (decl.explicit_type matches Some(x) ==> (!assignable(x, ty) ==> !clean(
                old(diagnostics)@,
                final(diagnostics)@,
            )))),
    {
        let ghost d0 = diagnostics@;
        let mut scope: NameMap<VariableInfo> = NameMap::new();
        let mut i: usize = 0;
        while i < self.globals.len()
            invariant
                i <= self.globals.entries().len(),
                forall|k: Seq<char>|
                    #[trigger] scope.get_spec(k) == lookup(
                        other_typed_globals(self.globals.entries().take(i as int), decl.name@),
                        k,
                    ),
            decreases self.globals.entries().len() - i,
        {
            let (name, info) = self.globals.entry(i);
            let ghost es = self.globals.entries();
            let ghost before = other_typed_globals(es.take(i as int), decl.name@);
            proof {
                assert(es.take(i + 1).drop_last() =~= es.take(i as int));
                assert(es.take(i + 1).last() == es[i as int]);
            }
            if !str_eq(name.as_str(), decl.name.as_str()) && !info.ty.same(&ValueType::Void) {
                proof {
                    assert(other_typed_globals(es.take(i + 1), decl.name@) == before.push(es[i as int]));
                    assert forall|k: Seq<char>| #[trigger] lookup(before.push(es[i as int]), k) == match lookup(before, k) {
                        Some(v) => Some(v),
                        None => if es[i as int].0@ == k {
                            Some(es[i as int].1)
                        } else {
                            None
                        },
                    } by {
                        let s2 = before.push(es[i as int]);
                        crate::names::lemma_lookup_take(s2, before.len() as int, k);
                        assert(s2.take(before.len() + 1 as int) =~= s2);
                        assert(s2.take(before.len() as int) =~= before);
                    }
                }
                if !scope.contains_key(name.as_str()) {
                    scope.insert(name.clone(), info.duplicate());
                }
            } else {
                proof {
                    assert(other_typed_globals(es.take(i + 1), decl.name@) == before);
                }
            }
            i += 1;
        }
        proof {
            assert(self.globals.entries().take(self.globals.entries().len() as int) =~= self.globals.entries());
            assert(scope_of(scope) =~= initializer_scope(self.globals, decl.name@));
        }
        let analyzed = self.analyze_root_expr(&decl.initializer, &scope, None, diagnostics);
        let ghost d1 = diagnostics@;
        let expr_type = match analyzed {
            Some(t) => t,
            None => {
                assert(self.globals.get_spec(decl.name@) == retyped(
                    self.globals.get_spec(decl.name@),
                    *decl,
                    None,
                ));
                return;
            },
        };
        let ghost g0 = self.globals;
        let resolved_type = match &decl.explicit_type {
            Some(explicit_type) => {
                if !is_assignable(explicit_type, &expr_type) {
                    let mut message = string_of("Initializer type '");
                    push_str(&mut message, expr_type.as_str());
                    push_str(&mut message, "' is not compatible with declared type '");
                    push_str(&mut message, explicit_type.as_str());
                    push_str(&mut message, "'");
                    diagnostics.error(Some(decl.span), message);
                }
                explicit_type.duplicate()
            },
            None => expr_type,
        };
        let updated = match self.globals.get(decl.name.as_str()) {
            Some(info) => Some(
                VariableInfo {
                    ty: resolved_type,
                    entitlement: match &info.entitlement {
                        Some(e) => Some(e.clone()),
                        None => None,
                    },
                    span: info.span,
                },
            ),
            None => None,
        };
        match updated {
            Some(info) => self.globals.set(decl.name.as_str(), info),
            None => {},
        }
        assert(self.globals.get_spec(decl.name@) == retyped(g0.get_spec(decl.name@), *decl, analyzed));
    }

    fn analyze_function(&self, decl: &FuncDecl, diagnostics: &mut Diagnostics)
        ensures
            grows(old(diagnostics)@, final(diagnostics)@),
            clean(old(diagnostics)@, final(diagnostics)@) ==> params_distinct(decl.params@),
            clean(old(diagnostics)@, final(diagnostics)@) ==> block_typed(
                decl.body@,
                params_scope(decl.params@),
                self.globals, self.functions, self.modules,
                decl.return_type,
                function_may(self.rights, *decl, Operation::Write),
                capability_allows(self.capabilities, Operation::Write),
                function_may(self.rights, *decl, Operation::Read),
                capability_allows(self.capabilities, Operation::Read),
            ),
            error_count(final(diagnostics)@) == error_count(old(diagnostics)@) ==> (
            decl.return_type != ValueType::Void ==> body_has_return(decl.body@)),
            params_distinct(decl.params@) && block_settled(decl.body@, known_capabilities(self.capabilities)) && block_typed(
                decl.body@,
                params_scope(decl.params@),
                self.globals, self.functions, self.modules,
                decl.return_type,
                function_may(self.rights, *decl, Operation::Write),
                capability_allows(self.capabilities, Operation::Write),
                function_may(self.rights, *decl, Operation::Read),
                capability_allows(self.capabilities, Operation::Read),
            ) && (decl.return_type != ValueType::Void ==> body_has_return(decl.body@)) ==> final(diagnostics)@
                == old(diagnostics)@,
            params_distinct(decl.params@) && block_settled(decl.body@, known_capabilities(self.capabilities)) && block_typed(
                decl.body@,
                params_scope(decl.params@),
                self.globals, self.functions, self.modules,
                decl.return_type,
                function_may(self.rights, *decl, Operation::Write),
                capability_allows(self.capabilities, Operation::Write),
                function_may(self.rights, *decl, Operation::Read),
                capability_allows(self.capabilities, Operation::Read),
            ) && decl.return_type != ValueType::Void && !body_has_return(decl.body@) ==> final(diagnostics)@
                == old(diagnostics)@.push(error_at(Some(decl.span), "Function '"@ + decl.name@ + "' must return '"@
                + shown_type_name(decl.return_type) + "' on at least one path"@)),
    {
        let ghost good = params_distinct(decl.params@) && block_settled(decl.body@, known_capabilities(self.capabilities)) && block_typed(
            decl.body@,
            params_scope(decl.params@),
            self.globals, self.functions, self.modules,
            decl.return_type,
            function_may(self.rights, *decl, Operation::Write),
            capability_allows(self.capabilities, Operation::Write),
            function_may(self.rights, *decl, Operation::Read),
            capability_allows(self.capabilities, Operation::Read),
        );
        let right: Option<PermissionSet> = if str_eq(decl.name.as_str(), "main") {
            None
        } else {
            match &decl.right {
                Some(right_name) => match self.rights.get(right_name.as_str()) {
                    Some(set) => Some(set.duplicate()),
                    None => None,
                },
                None => None,
            }
        };
        let ghost d0 = diagnostics@;
        let mut locals: NameMap<VariableInfo> = NameMap::new();
        let mut i: usize = 0;
        proof {
            assert(decl.params@.take(0) =~= Seq::<FuncParam>::empty());
            assert(scope_of(locals) =~= params_scope(decl.params@.take(0)));
        }
        while i < decl.params.len()
            invariant
                i <= decl.params@.len(),
                grows(d0, diagnostics@),
                clean(d0, diagnostics@) ==> params_distinct(decl.params@.take(i as int)),
                clean(d0, diagnostics@) ==> scope_of(locals) == params_scope(decl.params@.take(i as int)),
                good ==> params_distinct(decl.params@) && diagnostics@ == d0,
            decreases decl.params.len() - i,
        {
            let param = &decl.params[i];
            proof {
                assert(decl.params@.take(i + 1).drop_last() =~= decl.params@.take(i as int));
                assert(decl.params@.take(i + 1).last() == decl.params@[i as int]);
                lemma_params_scope_names(decl.params@.take(i as int), param.name@);
            }
            proof {
                if good {
                    assert forall|a: int| 0 <= a < i implies (#[trigger] decl.params@.take(i as int)[a]).name@ != param.name@ by {
                        assert(decl.params@.take(i as int)[a] == decl.params@[a]);
                    }
                }
            }
            if locals.contains_key(param.name.as_str()) {
                let mut message = string_of("Duplicate parameter '");
                push_str(&mut message, param.name.as_str());
                push_str(&mut message, "'");
                diagnostics.error(Some(param.span), message);
            } else {
                let ghost before = scope_of(locals);
                locals.insert(
                    param.name.clone(),
                    VariableInfo { ty: param.ty.duplicate(), entitlement: None, span: param.span },
                );
                proof {
                    if clean(d0, diagnostics@) {
                        assert(scope_of(locals) =~= params_scope(decl.params@.take(i + 1)));
                        assert forall|a: int, b: int| 0 <= a < b < i + 1 implies (#[trigger] decl.params@.take(i + 1)[a]).name@
                            != (#[trigger] decl.params@.take(i + 1)[b]).name@ by {
                            if b == i {
                                assert(decl.params@.take(i as int)[a] == decl.params@[a]);
                            } else {
                                assert(decl.params@.take(i as int)[a] == decl.params@.take(i + 1)[a]);
                                assert(decl.params@.take(i as int)[b] == decl.params@.take(i + 1)[b]);
                            }
                        }
                    }
                }
            }
            i += 1;
        }
        proof {
            assert(decl.params@.take(decl.params@.len() as int) =~= decl.params@);
        }
        let ghost p_scope = params_scope(decl.params@);
        let ghost d1 = diagnostics@;
        let mut has_return = false;
        let mut i: usize = 0;
        proof {
            assert(decl.body@.take(0) =~= Seq::<Stmt>::empty());
        }
        while i < decl.body.len()
            invariant
                i <= decl.body@.len(),
                grows(d0, d1),
                grows(d1, diagnostics@),
                has_return == exists|j: int| 0 <= j < i && stmt_has_return(#[trigger] decl.body@[j]),
                clean(d0, d1) ==> p_scope == params_scope(decl.params@) && params_distinct(decl.params@),
                clean(d0, diagnostics@) ==> scope_of(locals) == scope_through(decl.body@.take(i as int), p_scope, self.globals, self.functions, self.modules),
                clean(d0, diagnostics@) ==> block_typed(decl.body@.take(i as int), p_scope, self.globals, self.functions, self.modules, decl.return_type, owned_allows(right, Operation::Write), capability_allows(self.capabilities, Operation::Write), owned_allows(right, Operation::Read), capability_allows(self.capabilities, Operation::Read)),
                owned_allows(right, Operation::Write) == function_may(self.rights, *decl, Operation::Write),
                owned_allows(right, Operation::Read) == function_may(self.rights, *decl, Operation::Read),
                good ==> diagnostics@ == d0 && d1 == d0,
                good == (params_distinct(decl.params@) && block_settled(decl.body@, known_capabilities(self.capabilities)) && block_typed(
                    decl.body@,
                    params_scope(decl.params@),
                    self.globals, self.functions, self.modules,
                    decl.return_type,
                    function_may(self.rights, *decl, Operation::Write),
                    capability_allows(self.capabilities, Operation::Write),
                    function_may(self.rights, *decl, Operation::Read),
                    capability_allows(self.capabilities, Operation::Read),
                )),
            decreases decl.body.len() - i,
        {
            proof {
                assert(decl.body@.take(i + 1).drop_last() =~= decl.body@.take(i as int));
                assert(decl.body@.take(i + 1).last() == decl.body@[i as int]);
                if good {
                    lemma_block_typed_at(decl.body@, i as int, p_scope, self.globals, self.functions, self.modules, decl.return_type, owned_allows(right, Operation::Write), capability_allows(self.capabilities, Operation::Write), owned_allows(right, Operation::Read), capability_allows(self.capabilities, Operation::Read));
                    assert(stmt_interpolation_free(decl.body@[i as int]));
                }
            }
            self.analyze_statement(
                &decl.body[i],
                &mut locals,
                right.as_ref(),
                &decl.return_type,
                &mut has_return,
                diagnostics,
            );
            i += 1;
        }
        proof {
            assert(decl.body@.take(decl.body@.len() as int) =~= decl.body@);
        }
        if !decl.return_type.same(&ValueType::Void) && !has_return {
            let mut message = string_of("Function '");
            push_str(&mut message, decl.name.as_str());
            push_str(&mut message, "' must return '");
            push_str(&mut message, decl.return_type.as_str());
            push_str(&mut message, "' on at least one path");
            diagnostics.error(Some(decl.span), message);
        }
    }

    fn analyze_statement(
        &self,
        statement: &Stmt,
        locals: &mut NameMap<VariableInfo>,
        right: Option<&PermissionSet>,
        function_return_type: &ValueType,
        has_return: &mut bool,
        diagnostics: &mut Diagnostics,
    )
        ensures
            grows(old(diagnostics)@, final(diagnostics)@),
            *final(has_return) == (*old(has_return) || stmt_has_return(*statement)),
            clean(old(diagnostics)@, final(diagnostics)@) ==> stmt_typed(
                *statement,
                scope_of(*old(locals)),
                self.globals, self.functions, self.modules,
                *function_return_type,
                allowed_by(right, Operation::Write),
                capability_allows(self.capabilities, Operation::Write),
                allowed_by(right, Operation::Read),
                capability_allows(self.capabilities, Operation::Read),
            ),
            clean(old(diagnostics)@, final(diagnostics)@) ==> scope_of(*final(locals)) == scope_after(
                *statement,
                scope_of(*old(locals)),
                self.globals, self.functions, self.modules,
            ),
            stmt_interpolation_free(*statement) && stmt_entitlements_known(*statement, known_capabilities(self.capabilities)) && stmt_typed(
                *statement,
                scope_of(*old(locals)),
                self.globals, self.functions, self.modules,
                *function_return_type,
                allowed_by(right, Operation::Write),
                capability_allows(self.capabilities, Operation::Write),
                allowed_by(right, Operation::Read),
                capability_allows(self.capabilities, Operation::Read),
            ) ==> final(diagnostics)@ == old(diagnostics)@,
            *statement matches Stmt::If { condition, span, .. } ==> (self.settled(condition, *old(locals), right)
                && self.type_in(condition, *old(locals)) != Some(ValueType::Bool) ==> extends(old(diagnostics)@.push(
                error_at(Some(span), "If condition must be bool, got '"@ + shown_type_name(self.type_in(condition, *old(locals))->0)
                + "'"@)), final(diagnostics)@)),
            *statement matches Stmt::While { condition, span, .. } ==> (self.settled(condition, *old(locals), right)
                && self.type_in(condition, *old(locals)) != Some(ValueType::Bool) ==> extends(old(diagnostics)@.push(
                error_at(Some(span), "While condition must be bool, got '"@ + shown_type_name(self.type_in(condition, *old(locals))->0)
                + "'"@)), final(diagnostics)@)),
            *statement matches Stmt::Return { value: None, span } ==> (*function_return_type != ValueType::Void
                ==> final(diagnostics)@ == old(diagnostics)@.push(error_at(Some(span), "Function must return '"@
                + shown_type_name(*function_return_type) + "'"@))),
            *statement matches Stmt::Return { value: Some(v), span } ==> (*function_return_type == ValueType::Void
                ==> final(diagnostics)@ == old(diagnostics)@.push(error_at(Some(span), "Void function cannot return a value"@))),
            *statement matches Stmt::Return { value: Some(v), span } ==> (*function_return_type != ValueType::Void
                && self.settled(v, *old(locals), right) && !assignable(*function_return_type, self.type_in(v, *old(locals))->0)
                ==> final(diagnostics)@ == old(diagnostics)@.push(error_at(Some(span), "Return type '"@
                + shown_type_name(self.type_in(v, *old(locals))->0) + "' is incompatible with '"@
                + shown_type_name(*function_return_type) + "'"@))),
            *statement matches Stmt::Assign { target, value, span } ==> ((target matches AssignTarget::Index { array, index }
                ==> self.settled(array, *old(locals), right) && self.settled(index, *old(locals), right))
                && target_type(target, scope_of(*old(locals)), self.globals, self.functions, self.modules) is Some
                && target_root(target, scope_of(*old(locals)), self.globals) is Some && self.settled(value, *old(locals), right)
                && !assignable(target_type(target, scope_of(*old(locals)), self.globals, self.functions, self.modules)->0,
                self.type_in(value, *old(locals))->0) ==> extends(old(diagnostics)@.push(error_at(Some(span), "Cannot assign '"@
                + shown_type_name(self.type_in(value, *old(locals))->0) + "' to target of type '"@
                + shown_type_name(target_type(target, scope_of(*old(locals)), self.globals, self.functions, self.modules)->0)
                + "'"@)), final(diagnostics)@)),
        decreases statement,
    {
        match statement {
            Stmt::VarDecl(decl) => self.analyze_local_var_decl(decl, locals, right, diagnostics),
            Stmt::Assign { target, value, span } => {
                let target_info = self.assignment_target_info(target, locals, right, *span, diagnostics);
                match target_info {
                    Some((owning_variable, target_type)) => {
                        match self.analyze_root_expr(value, locals, right, diagnostics) {
                            Some(value_type) => {
                                if !is_assignable(&target_type, &value_type) {
                                    let mut message = string_of("Cannot assign '");
                                    push_str(&mut message, value_type.as_str());
                                    push_str(&mut message, "' to target of type '");
                                    push_str(&mut message, target_type.as_str());
                                    push_str(&mut message, "'");
                                    diagnostics.error(Some(*span), message);
                                }
                            },
                            None => {},
                        }
                        self.enforce_write_access(&owning_variable, right, *span, diagnostics);
                    },
                    None => {},
                }
            },
            Stmt::If { condition, then_branch, else_branch, span } => {
                self.check_condition(condition, locals, right, *span, "If condition must be bool, got '", diagnostics);
                let mut then_locals = clone_scope(locals);
                self.analyze_block(then_branch, &mut then_locals, right, function_return_type, has_return, diagnostics);
                let mut else_locals = clone_scope(locals);
                self.analyze_block(else_branch, &mut else_locals, right, function_return_type, has_return, diagnostics);
            },
            Stmt::While { condition, body, span } => {
                self.check_condition(condition, locals, right, *span, "While condition must be bool, got '", diagnostics);
                let mut loop_locals = clone_scope(locals);
                self.analyze_block(body, &mut loop_locals, right, function_return_type, has_return, diagnostics);
            },
            Stmt::DoWhile { body, condition, span } => {
                let mut loop_locals = clone_scope(locals);
                self.analyze_block(body, &mut loop_locals, right, function_return_type, has_return, diagnostics);
                self.check_condition(condition, locals, right, *span, "Do-while condition must be bool, got '", diagnostics);
            },
            Stmt::Expr { expr, .. } => {
                self.analyze_root_expr(expr, locals, right, diagnostics);
            },
            Stmt::Block { statements, .. } => {
                let mut nested = clone_scope(locals);
                self.analyze_block(statements, &mut nested, right, function_return_type, has_return, diagnostics);
            },
            Stmt::Return { value, span } => {
                *has_return = true;
                let void_fn = function_return_type.same(&ValueType::Void);
                match value {
                    None => {
                        if !void_fn {
                            let mut message = string_of("Function must return '");
                            push_str(&mut message, function_return_type.as_str());
                            push_str(&mut message, "'");
                            diagnostics.error(Some(*span), message);
                        }
                    },
                    Some(expr) => {
                        if void_fn {
                            diagnostics.error(Some(*span), string_of("Void function cannot return a value"));
                        } else {
                            match self.analyze_root_expr(expr, locals, right, diagnostics) {
                                Some(actual) => {
                                    if !is_assignable(function_return_type, &actual) {
                                        let mut message = string_of("Return type '");
                                        push_str(&mut message, actual.as_str());
                                        push_str(&mut message, "' is incompatible with '");
                                        push_str(&mut message, function_return_type.as_str());
                                        push_str(&mut message, "'");
                                        diagnostics.error(Some(*span), message);
                                    }
                                },
                                None => {},
                            }
                        }
                    },
                }
            },
        }
    }

    /// Analyzes the statements of a nested block in its own scope.
    fn analyze_block(
        &self,
        statements: &Vec<Stmt>,
        locals: &mut NameMap<VariableInfo>,
        right: Option<&PermissionSet>,
        function_return_type: &ValueType,
        has_return: &mut bool,
        diagnostics: &mut Diagnostics,
    )
        ensures
            grows(old(diagnostics)@, final(diagnostics)@),
            *final(has_return) == (*old(has_return) || body_has_return(statements@)),
            clean(old(diagnostics)@, final(diagnostics)@) ==> block_typed(
                statements@,
                scope_of(*old(locals)),
                self.globals, self.functions, self.modules,
                *function_return_type,
                allowed_by(right, Operation::Write),
                capability_allows(self.capabilities, Operation::Write),
                allowed_by(right, Operation::Read),
                capability_allows(self.capabilities, Operation::Read),
            ),
            block_settled(statements@, known_capabilities(self.capabilities)) && block_typed(
                statements@,
                scope_of(*old(locals)),
                self.globals, self.functions, self.modules,
                *function_return_type,
                allowed_by(right, Operation::Write),
                capability_allows(self.capabilities, Operation::Write),
                allowed_by(right, Operation::Read),
                capability_allows(self.capabilities, Operation::Read),
            ) ==> final(diagnostics)@ == old(diagnostics)@,
        decreases statements@,
    {
        let ghost d0 = diagnostics@;
        let ghost h0 = *has_return;
        let ghost s0 = scope_of(*locals);
        let mut i: usize = 0;
        proof {
            assert(statements@.take(0) =~= Seq::<Stmt>::empty());
        }
        while i < statements.len()
            invariant
                i <= statements@.len(),
                grows(d0, diagnostics@),
                h0 == *old(has_return),
                d0 == old(diagnostics)@,
                s0 == scope_of(*old(locals)),
                *has_return == (h0 || exists|j: int|
                    0 <= j < i && stmt_has_return(#[trigger] statements@[j])),
                clean(d0, diagnostics@) ==> block_typed(statements@.take(i as int), s0, self.globals, self.functions, self.modules, *function_return_type, allowed_by(right, Operation::Write), capability_allows(self.capabilities, Operation::Write), allowed_by(right, Operation::Read), capability_allows(self.capabilities, Operation::Read)),
                clean(d0, diagnostics@) ==> scope_of(*locals) == scope_through(statements@.take(i as int), s0, self.globals, self.functions, self.modules),
                block_settled(statements@, known_capabilities(self.capabilities)) && block_typed(statements@, s0, self.globals, self.functions, self.modules, *function_return_type, allowed_by(right, Operation::Write), capability_allows(self.capabilities, Operation::Write), allowed_by(right, Operation::Read), capability_allows(self.capabilities, Operation::Read))
                    ==> diagnostics@ == d0,
            decreases statements.len() - i,
        {
            proof {
                assert(statements@.take(i + 1).drop_last() =~= statements@.take(i as int));
                assert(statements@.take(i + 1).last() == statements@[i as int]);
                if block_settled(statements@, known_capabilities(self.capabilities)) && block_typed(statements@, s0, self.globals, self.functions, self.modules, *function_return_type, allowed_by(right, Operation::Write), capability_allows(self.capabilities, Operation::Write), allowed_by(right, Operation::Read), capability_allows(self.capabilities, Operation::Read)) {
                    lemma_block_typed_at(statements@, i as int, s0, self.globals, self.functions, self.modules, *function_return_type, allowed_by(right, Operation::Write), capability_allows(self.capabilities, Operation::Write), allowed_by(right, Operation::Read), capability_allows(self.capabilities, Operation::Read));
                    assert(stmt_interpolation_free(statements@[i as int]));
                }
            }
            self.analyze_statement(&statements[i], locals, right, function_return_type, has_return, diagnostics);
            i += 1;
        }
        proof {
            assert(statements@.take(statements@.len() as int) =~= statements@);
        }
    }

    fn check_condition(
        &self,
        condition: &Expr,
        locals: &NameMap<VariableInfo>,
        right: Option<&PermissionSet>,
        span: Span,
        message_start: &str,
        diagnostics: &mut Diagnostics,
    )
        ensures
            grows(old(diagnostics)@, final(diagnostics)@),
            clean(old(diagnostics)@, final(diagnostics)@) ==> expr_type(
                *condition,
                scope_of(*locals),
                self.globals, self.functions, self.modules,
            ) == Some(ValueType::Bool),
            clean(old(diagnostics)@, final(diagnostics)@) && expr_type(*condition, scope_of(*locals), self.globals, self.functions, self.modules) is Some
                ==> reads_ok(*condition, scope_of(*locals), self.globals, allowed_by(right, Operation::Read), capability_allows(self.capabilities, Operation::Read)),
            interpolation_free(*condition) && expr_type(*condition, scope_of(*locals), self.globals, self.functions, self.modules) == Some(ValueType::Bool)
                && reads_ok(*condition, scope_of(*locals), self.globals, allowed_by(right, Operation::Read), capability_allows(self.capabilities, Operation::Read))
                ==> final(diagnostics)@ == old(diagnostics)@,
            self.settled(*condition, *locals, right) && self.type_in(*condition, *locals) != Some(ValueType::Bool)
                ==> final(diagnostics)@ == old(diagnostics)@.push(error_at(Some(span), message_start@
                + shown_type_name(self.type_in(*condition, *locals)->0) + "'"@)),
    {
        match self.analyze_root_expr(condition, locals, right, diagnostics) {
            Some(condition_type) => {
                if !condition_type.same(&ValueType::Bool) {
                    let mut message = string_of(message_start);
                    push_str(&mut message, condition_type.as_str());
                    push_str(&mut message, "'");
                    diagnostics.error(Some(span), message);
                }
            },
            None => {},
        }
    }

    fn analyze_local_var_decl(
        &self,
        decl: &VarDecl,
        locals: &mut NameMap<VariableInfo>,
        right: Option<&PermissionSet>,
        diagnostics: &mut Diagnostics,
    )
        ensures
            grows(old(diagnostics)@, final(diagnostics)@),
            clean(old(diagnostics)@, final(diagnostics)@) ==> stmt_typed(
                Stmt::VarDecl(*decl),
                scope_of(*old(locals)),
                self.globals, self.functions, self.modules,
                ValueType::Void,
                true,
                capability_allows(self.capabilities, Operation::Write),
                allowed_by(right, Operation::Read),
                capability_allows(self.capabilities, Operation::Read),
            ),
            clean(old(diagnostics)@, final(diagnostics)@) ==> scope_of(*final(locals)) == scope_after(
                Stmt::VarDecl(*decl),
                scope_of(*old(locals)),
                self.globals, self.functions, self.modules,
            ),
            interpolation_free(decl.initializer) && (decl.entitlement matches Some(c) ==> self.capabilities.get_spec(c@) is Some)
                && stmt_typed(
                Stmt::VarDecl(*decl),
                scope_of(*old(locals)),
                self.globals, self.functions, self.modules,
                ValueType::Void,
                true,
                capability_allows(self.capabilities, Operation::Write),
                allowed_by(right, Operation::Read),
                capability_allows(self.capabilities, Operation::Read),
            ) ==> final(diagnostics)@ == old(diagnostics)@,
    {
        if locals.contains_key(decl.name.as_str()) {
            let mut message = string_of("Local variable '");
            push_str(&mut message, decl.name.as_str());
            push_str(&mut message, "' is already declared");
            diagnostics.error(Some(decl.span), message);
            return;
        }
        match &decl.entitlement {
            Some(capability) => {
                if !self.capabilities.contains_key(capability.as_str()) {
                    let mut message = string_of("Capability '");
                    push_str(&mut message, capability.as_str());
                    push_str(&mut message, "' not found");
                    diagnostics.error(Some(decl.span), message);
                }
            },
            None => {},
        }
        let initializer_type = match self.analyze_root_expr(&decl.initializer, locals, right, diagnostics) {
            Some(t) => t,
            None => {
                return;
            },
        };
        let resolved_type = match &decl.explicit_type {
            Some(explicit_type) => {
                if !is_assignable(explicit_type, &initializer_type) {
                    let mut message = string_of("Cannot initialize '");
                    push_str(&mut message, explicit_type.as_str());
                    push_str(&mut message, "' with value of type '");
                    push_str(&mut message, initializer_type.as_str());
                    push_str(&mut message, "'");
                    diagnostics.error(Some(decl.span), message);
                }
                explicit_type.duplicate()
            },
            None => initializer_type,
        };
        let entitlement = match &decl.entitlement {
            Some(e) => Some(e.clone()),
            None => None,
        };
        let ghost s0 = scope_of(*locals);
        let info = VariableInfo { ty: resolved_type, entitlement, span: decl.span };
        locals.insert(decl.name.clone(), info);
        proof {
            if clean(old(diagnostics)@, diagnostics@) {
                assert(scope_of(*locals) =~= scope_after(Stmt::VarDecl(*decl), s0, self.globals, self.functions, self.modules));
            }
        }
    }

    /// Analyzes an expression that stands on its own in a statement or declaration.
    fn analyze_root_expr(
        &self,
        expr: &Expr,
        locals: &NameMap<VariableInfo>,
        right: Option<&PermissionSet>,
        diagnostics: &mut Diagnostics,
    ) -> (r: Option<ValueType>)
        ensures
            grows(old(diagnostics)@, final(diagnostics)@),
            r is None ==> error_count(old(diagnostics)@) < error_count(final(diagnostics)@),
            interpolation_free(*expr) || clean(old(diagnostics)@, final(diagnostics)@) ==> r == expr_type(
                *expr,
                scope_of(*locals),
                self.globals,
                self.functions,
                self.modules,
            ),
            clean(old(diagnostics)@, final(diagnostics)@) && r is Some ==> reads_ok(*expr, scope_of(*locals), self.globals, allowed_by(right, Operation::Read), capability_allows(self.capabilities, Operation::Read)),
            interpolation_free(*expr) && expr_type(*expr, scope_of(*locals), self.globals, self.functions, self.modules) is Some
                && reads_ok(*expr, scope_of(*locals), self.globals, allowed_by(right, Operation::Read), capability_allows(self.capabilities, Operation::Read))
                ==> final(diagnostics)@ == old(diagnostics)@,
    {
        proof {
            crate::ast::lemma_string_bound(*expr);
        }
        self.analyze_expr(
            expr,
            locals,
            right,
            Ghost(crate::ast::expr_string_bound(*expr)),
            diagnostics,
        )
    }

    /// The type of an expression in the scope of `locals`.
    spec fn type_in(&self, e: Expr, locals: NameMap<VariableInfo>) -> Option<ValueType> {
        expr_type(e, scope_of(locals), self.globals, self.functions, self.modules)
    }

    /// An expression that analysis passes without a diagnostic: it holds no
    /// interpolated string, has a type, and reads only what may be read.
    spec fn settled(&self, e: Expr, locals: NameMap<VariableInfo>, right: Option<&PermissionSet>) -> bool {
        &&& interpolation_free(e)
        &&& self.type_in(e, locals) is Some
        &&& reads_ok(e, scope_of(locals), self.globals, allowed_by(right, Operation::Read), capability_allows(self.capabilities, Operation::Read))
    }

    /// The `k`-th argument is the first that cannot be printed: the ones before it
    /// pass without a diagnostic and have printable types, and it passes without
    /// a diagnostic but its type is not printable.
    spec fn first_unprintable(&self, args: Vec<Expr>, locals: NameMap<VariableInfo>, right: Option<&PermissionSet>, k: int) -> bool {
        &&& 0 <= k < args@.len()
        &&& forall|j: int| 0 <= j < k ==> self.settled(#[trigger] args@[j], locals, right) && printable(self.type_in(args@[j], locals)->0)
        &&& self.settled(args@[k], locals, right)
        &&& !printable(self.type_in(args@[k], locals)->0)
    }

    /// A segment of a string literal that analysis passes without a diagnostic:
    /// text, or an interpolated expression whose source lexes cleanly and reads
    /// as an expression, and every expression it reads as passes without a
    /// diagnostic and has a type that may be interpolated.
    spec fn segment_settled(&self, seg: SegmentView, locals: NameMap<VariableInfo>, right: Option<&PermissionSet>) -> bool {
        match seg {
            SegmentView::Text(_) => true,
            SegmentView::Expression(code) => {
                let lexed = crate::lexer::lex_spec(code);
                &&& !has_error(lexed.1)
                &&& exists|e: Expr, n: int| #[trigger] crate::grammar::derives(lexed.0, 0, 0, e, n) && 0 <= n < lexed.0.len()
                    && lexed.0[n].kind == crate::token::Kind::Eof
                &&& forall|e: Expr, n: int| #[trigger] crate::grammar::derives(lexed.0, 0, 0, e, n) && lexed.0[n].kind
                    == crate::token::Kind::Eof ==> self.settled(e, locals, right) && interpolable(self.type_in(e, locals)->0)
            },
        }
    }

    /// A string literal whose every segment analysis passes without a diagnostic.
    spec fn literal_settled(&self, text: Seq<char>, locals: NameMap<VariableInfo>, right: Option<&PermissionSet>) -> bool {
        &&& segments_spec(text) is Ok
        &&& forall|i: int| 0 <= i < segments_spec(text)->Ok_0.len() ==> self.segment_settled(
            #[trigger] segments_spec(text)->Ok_0[i],
            locals,
            right,
        )
    }

    #[verifier::rlimit(100)]
    #[verifier::spinoff_prover]
    fn analyze_expr(
        &self,
        expr: &Expr,
        locals: &NameMap<VariableInfo>,
        right: Option<&PermissionSet>,
        Ghost(bound): Ghost<nat>,
        diagnostics: &mut Diagnostics,
    ) -> (r: Option<ValueType>)
        requires
            expr_strings_below(*expr, bound),
        ensures
            grows(old(diagnostics)@, final(diagnostics)@),
            r is None ==> error_count(old(diagnostics)@) < error_count(final(diagnostics)@),
            *expr is IntLiteral ==> r == Some(ValueType::Int),
            *expr is FloatLiteral ==> r == Some(ValueType::Float),
            *expr is BoolLiteral ==> r == Some(ValueType::Bool),
            *expr is NewObject ==> r is None && error_count(old(diagnostics)@) < error_count(
                final(diagnostics)@,
            ),
            *expr is StringLiteral && r is Some ==> r == Some(ValueType::String),
            interpolation_free(*expr) || clean(old(diagnostics)@, final(diagnostics)@) ==> r == expr_type(
                *expr,
                scope_of(*locals),
                self.globals,
                self.functions,
                self.modules,
            ),
            clean(old(diagnostics)@, final(diagnostics)@) && r is Some ==> reads_ok(*expr, scope_of(*locals), self.globals, allowed_by(right, Operation::Read), capability_allows(self.capabilities, Operation::Read)),
            interpolation_free(*expr) && expr_type(*expr, scope_of(*locals), self.globals, self.functions, self.modules) is Some
                && reads_ok(*expr, scope_of(*locals), self.globals, allowed_by(right, Operation::Read), capability_allows(self.capabilities, Operation::Read))
                ==> final(diagnostics)@ == old(diagnostics)@,
            *expr matches Expr::StringLiteral(text, span) ==> (self.literal_settled(text@, *locals, right) ==> (r == Some(
                ValueType::String) && final(diagnostics)@ == old(diagnostics)@)),
            *expr matches Expr::ArrayLiteral(items, span) ==> ((items@.len() == 0) ==> (r is None && final(diagnostics)@
                == old(diagnostics)@.push(error_at(Some(span), "Empty array literal requires explicit type annotation"@)))),
            *expr matches Expr::Unary { op: UnaryOp::Neg, expr: inner, span } ==> ((self.settled(*inner, *locals, right)
                && !spec_is_numeric(self.type_in(*inner, *locals)->0)) ==> (r is None && final(diagnostics)@
                == old(diagnostics)@.push(error_at(Some(span), "Operator '-' is only valid for int/float, got '"@
                + shown_type_name(self.type_in(*inner, *locals)->0) + "'"@)))),
            *expr matches Expr::Unary { op: UnaryOp::Not, expr: inner, span } ==> ((self.settled(*inner, *locals, right)
                && self.type_in(*inner, *locals) != Some(ValueType::Bool)) ==> (r is None && final(diagnostics)@
                == old(diagnostics)@.push(error_at(Some(span), "Operator '!' is only valid for bool, got '"@
                + shown_type_name(self.type_in(*inner, *locals)->0) + "'"@)))),
            *expr matches Expr::Index { array, index, span } ==> ((self.settled(*array, *locals, right) && self.settled(*index, *locals, right)
                && self.type_in(*index, *locals) != Some(ValueType::Int)) ==> (r is None && final(diagnostics)@
                == old(diagnostics)@.push(error_at(Some(span), "Array index must be int, got '"@
                + shown_type_name(self.type_in(*index, *locals)->0) + "'"@)))),
            *expr matches Expr::Index { array, index, span } ==> ((self.settled(*array, *locals, right) && self.settled(*index, *locals, right)
                && self.type_in(*index, *locals) == Some(ValueType::Int) && !(self.type_in(*array, *locals)->0 is Array)) ==> (r is None
                && final(diagnostics)@ == old(diagnostics)@.push(error_at(Some(span), "Indexing is only valid for arrays, got '"@
                + shown_type_name(self.type_in(*array, *locals)->0) + "'"@)))),
            *expr matches Expr::Ternary { condition, then_expr, else_expr, span } ==> ((self.settled(*condition, *locals, right)
                && self.type_in(*condition, *locals) != Some(ValueType::Bool)) ==> (r is None && final(diagnostics)@
                == old(diagnostics)@.push(error_at(Some(expr_span(*condition)), "Ternary condition must be bool, got '"@
                + shown_type_name(self.type_in(*condition, *locals)->0) + "'"@)))),
            *expr matches Expr::Ternary { condition, then_expr, else_expr, span } ==> ((self.settled(*condition, *locals, right)
                && self.type_in(*condition, *locals) == Some(ValueType::Bool) && self.settled(*then_expr, *locals, right)
                && self.settled(*else_expr, *locals, right) && unify(self.type_in(*then_expr, *locals)->0, self.type_in(*else_expr, *locals)->0) is None
               ) ==> (r is None && final(diagnostics)@ == old(diagnostics)@.push(error_at(Some(span), "Ternary branches have incompatible types '"@
                + shown_type_name(self.type_in(*then_expr, *locals)->0) + "' and '"@ + shown_type_name(self.type_in(*else_expr, *locals)->0) + "'"@)))),
            *expr matches Expr::Call { callee: CallTarget::Name(fname), args, span } ==> ((fname@ == "Int"@ && args@.len() != 1)
                ==> (r is None && final(diagnostics)@ == old(diagnostics)@.push(error_at(Some(span),
                "Int(...) expects exactly one argument, got "@ + decimal(args@.len()))))),
            *expr matches Expr::Call { callee: CallTarget::Name(fname), args, span } ==> ((fname@ == "Int"@ && args@.len() == 1
                && self.settled(args@[0], *locals, right) && !printable(self.type_in(args@[0], *locals)->0))
                ==> (r is None && final(diagnostics)@ == old(diagnostics)@.push(error_at(Some(span),
                "Int(...) does not support conversion from '"@ + shown_type_name(self.type_in(args@[0], *locals)->0) + "'"@)))),
            *expr matches Expr::Call { callee: CallTarget::Name(fname), args, span } ==> ((fname@ != "Int"@
                && self.functions.get_spec(fname@) is None) ==> (r is None && final(diagnostics)@ == old(diagnostics)@.push(
                error_at(Some(span), "Function '"@ + fname@ + "' not found"@)))),
            *expr matches Expr::Call { callee: CallTarget::Name(fname), args, span } ==> ((fname@ != "Int"@
                && self.functions.get_spec(fname@) is Some && self.functions.get_spec(fname@)->0.params@.len() != args@.len()) ==> (r is None
                && final(diagnostics)@ == old(diagnostics)@.push(error_at(Some(span), "Function '"@ + fname@ + "' expects "@
                + decimal(self.functions.get_spec(fname@)->0.params@.len()) + " argument(s), got "@ + decimal(args@.len()))))),
            *expr matches Expr::Call { callee: CallTarget::Qualified { module, name }, args, span } ==> (
                self.modules.module_spec(module@) is None ==> (r is None && final(diagnostics)@ == old(diagnostics)@.push(
                error_at(Some(span), "Module '"@ + module@ + "' is not imported"@)))),
        decreases bound, *expr,
    {
        let ghost good = interpolation_free(*expr) && expr_type(*expr, scope_of(*locals), self.globals, self.functions, self.modules) is Some
            && reads_ok(*expr, scope_of(*locals), self.globals, allowed_by(right, Operation::Read), capability_allows(self.capabilities, Operation::Read));
        match expr {
            Expr::IntLiteral(_, _) => Some(ValueType::Int),
            Expr::FloatLiteral(_, _) => Some(ValueType::Float),
            Expr::BoolLiteral(_, _) => Some(ValueType::Bool),
            Expr::StringLiteral(text, span) => {
                let segments = match parse_segments(text.as_str()) {
                    Ok(parts) => parts,
                    Err(message) => {
                        diagnostics.error(Some(*span), message);
                        return None;
                    },
                };
                let text_len = char_count(text.as_str());
                let ghost d0 = diagnostics@;
                let mut k: usize = 0;
                while k < segments.len()
                    invariant
                        k <= segments@.len(),
                        segments_spec(text@) == Ok::<Seq<SegmentView>, Seq<char>>(
                            segments_view(segments@),
                        ),
                        text_len == text@.len(),
                        text@.len() < bound,
                        *expr == Expr::StringLiteral(*text, *span),
                        grows(d0, diagnostics@),
                        grows(old(diagnostics)@, d0),
                        good ==> diagnostics@ == old(diagnostics)@,
                        good ==> forall|i: int| 0 <= i < segments@.len() ==> (#[trigger] segments_view(segments@)[i]) is Text,
                        self.literal_settled(text@, *locals, right) ==> diagnostics@ == old(diagnostics)@,
                    decreases segments.len() - k,
                {
                    match &segments[k] {
                        Segment::Expression(code) => {
                            proof {
                                assert(segments_view(segments@)[k as int] == SegmentView::Expression(code@));
                                assert(!good);
                                crate::string_interp::lemma_segment_code_shorter(text@, k as int);
                            }
                            proof {
                                if self.literal_settled(text@, *locals, right) {
                                    assert(self.segment_settled(segments_spec(text@)->Ok_0[k as int], *locals, right));
                                }
                            }
                            let parsed = match crate::parser::parse_expression_fragment(code.as_str()) {
                                Ok(e) => e,
                                Err(message) => {
                                    let mut full = string_of("Invalid interpolation expression '");
                                    push_str(&mut full, code.as_str());
                                    push_str(&mut full, "': ");
                                    push_str(&mut full, message.as_str());
                                    diagnostics.error(Some(*span), full);
                                    return None;
                                },
                            };
                            proof {
                                if self.literal_settled(text@, *locals, right) {
                                    let n = choose|n: int| #[trigger] crate::grammar::derives(crate::lexer::lex_spec(code@).0, 0, 0, parsed, n)
                                        && crate::lexer::lex_spec(code@).0[n].kind == crate::token::Kind::Eof;
                                    assert(self.settled(parsed, *locals, right));
                                }
                            }
                            let result_type = match self.analyze_expr(
                                &parsed,
                                locals,
                                right,
                                Ghost(code@.len() + 1),
                                diagnostics,
                            ) {
                                Some(t) => t,
                                None => {
                                    let mut full = string_of("Interpolation expression '");
                                    push_str(&mut full, code.as_str());
                                    push_str(&mut full, "' is invalid");
                                    diagnostics.error(Some(*span), full);
                                    return None;
                                },
                            };
                            if !is_interpolable(&result_type) {
                                let mut full = string_of("Interpolation does not support type '");
                                push_str(&mut full, result_type.as_str());
                                push_str(&mut full, "'");
                                diagnostics.error(Some(*span), full);
                                return None;
                            }
                        },
                        Segment::Text(_) => {},
                    }
                    k += 1;
                }
                Some(ValueType::String)
            },
            Expr::ArrayLiteral(elements, span) => {
                let ghost l = scope_of(*locals);
                let ghost g = self.globals;
                let ghost f = self.functions;
                let ghost m = self.modules;
                if elements.len() == 0 {
                    diagnostics.error(
                        Some(*span),
                        string_of("Empty array literal requires explicit type annotation"),
                    );
                    proof {
                        assert(elements@ =~= Seq::<Expr>::empty());
                        assert(exprs_types(elements@, l, g, f, m) == Some(Seq::<ValueType>::empty()));
                    }
                    return None;
                }
                let ghost d0 = diagnostics@;
                let mut element_type: Option<ValueType> = None;
                let mut k: usize = 0;
                assert(elements@.take(0) =~= Seq::<Expr>::empty());
                while k < elements.len()
                    invariant
                        clean(old(diagnostics)@, diagnostics@) ==> forall|j: int| 0 <= j < k ==> reads_ok(#[trigger] elements@[j], scope_of(*locals), self.globals, allowed_by(right, Operation::Read), capability_allows(self.capabilities, Operation::Read)),
                        k <= elements@.len(),
                        forall|j: int| 0 <= j < elements@.len() ==> expr_strings_below(#[trigger] elements@[j], bound),
                        *expr == Expr::ArrayLiteral(*elements, *span),
                        grows(d0, diagnostics@),
                        grows(old(diagnostics)@, d0),
                        good ==> diagnostics@ == old(diagnostics)@,
                        good == (interpolation_free(*expr) && expr_type(*expr, scope_of(*locals), self.globals, self.functions, self.modules) is Some
                            && reads_ok(*expr, scope_of(*locals), self.globals, allowed_by(right, Operation::Read), capability_allows(self.capabilities, Operation::Read))),
                        element_type is Some <==> k > 0,
                        l == scope_of(*locals) && g == self.globals && f == self.functions && m == self.modules,
                        interpolation_free(*expr) || clean(old(diagnostics)@, diagnostics@) ==> (exprs_types(elements@.take(k as int), l, g, f, m) matches Some(ts)
                            && (k > 0 ==> element_type == unify_all(ts))),
                    decreases elements.len() - k,
                {
                    proof {
                        assert(decreases_to!(*expr => (*expr)->ArrayLiteral_0));
                        assert(decreases_to!(*elements => elements@));
                        assert(decreases_to!(elements@ => elements@[k as int]));
                        lemma_exprs_types_step(elements@, k as int, l, g, f, m);
                        if good {
                            lemma_exprs_types_at(elements@, k as int, l, g, f, m);
                            assert(interpolation_free(elements@[k as int]));
                            assert(reads_ok(elements@[k as int], l, g, allowed_by(right, Operation::Read), capability_allows(self.capabilities, Operation::Read)));
                        }
                    }
                    let current = match self.analyze_expr(&elements[k], locals, right, Ghost(bound), diagnostics) {
                        Some(t) => t,
                        None => {
                            proof {
                                if interpolation_free(*expr) || clean(old(diagnostics)@, diagnostics@) {
                                    lemma_exprs_types_none(elements@, k + 1, l, g, f, m);
                                }
                            }
                            return None;
                        },
                    };
                    let ghost prefix = elements@.take(k + 1);
                    element_type = match element_type {
                        None => {
                            proof {
                                if interpolation_free(*expr) || clean(old(diagnostics)@, diagnostics@) {
                                    assert(elements@.take(0) =~= Seq::<Expr>::empty());
                                    let ts = exprs_types(elements@.take(k as int), l, g, f, m)->0;
                                    lemma_exprs_types_len(elements@.take(k as int), l, g, f, m);
                                    assert(ts.push(current).len() == 1);
                                    assert(ts.push(current)[0] == current);
                                }
                            }
                            Some(current)
                        },
                        Some(existing) => match unify_types(&existing, &current) {
                            Some(t) => {
                                proof {
                                    if interpolation_free(*expr) || clean(old(diagnostics)@, diagnostics@) {
                                        let ts = exprs_types(elements@.take(k as int), l, g, f, m)->0;
                                        lemma_exprs_types_len(elements@.take(k as int), l, g, f, m);
                                        assert(ts.push(current).drop_last() =~= ts);
                                    }
                                }
                                Some(t)
                            },
                            None => {
                                let mut message = string_of("Array literal has incompatible element types '");
                                push_str(&mut message, existing.as_str());
                                push_str(&mut message, "' and '");
                                push_str(&mut message, current.as_str());
                                push_str(&mut message, "'");
                                diagnostics.error(Some(*span), message);
                                proof {
                                    if interpolation_free(*expr) || clean(old(diagnostics)@, diagnostics@) {
                                        let ts = exprs_types(elements@.take(k as int), l, g, f, m)->0;
                                        lemma_exprs_types_len(elements@.take(k as int), l, g, f, m);
                                        assert(ts.push(current).drop_last() =~= ts);
                                        assert(unify_all(ts.push(current)) is None);
                                        if exprs_types(elements@, l, g, f, m) is Some {
                                            lemma_exprs_types_prefix(elements@, k + 1, l, g, f, m);
                                            let all = exprs_types(elements@, l, g, f, m)->0;
                                            assert(all.take(k + 1) == ts.push(current));
                                            lemma_unify_all_none(all, k + 1);
                                        }
                                    }
                                }
                                return None;
                            },
                        },
                    };
                    k += 1;
                }
                proof {
                    assert(elements@.take(elements@.len() as int) =~= elements@);
                }
                match element_type {
                    Some(t) => Some(ValueType::Array(Box::new(t))),
                    None => None,
                }
            },
            Expr::Identifier(name, span) => {
                let variable = match self.lookup_variable(name.as_str(), *span, locals, diagnostics) {
                    Some(v) => v,
                    None => {
                        return None;
                    },
                };
                self.enforce_read_access(&variable, right, *span, diagnostics);
                Some(variable.ty)
            },
            Expr::Index { array, index, span } => {
                let array_type = match self.analyze_expr(array, locals, right, Ghost(bound), diagnostics) {
                    Some(t) => t,
                    None => {
                        return None;
                    },
                };
                let index_type = match self.analyze_expr(index, locals, right, Ghost(bound), diagnostics) {
                    Some(t) => t,
                    None => {
                        return None;
                    },
                };
                if !index_type.same(&ValueType::Int) {
                    let mut message = string_of("Array index must be int, got '");
                    push_str(&mut message, index_type.as_str());
                    push_str(&mut message, "'");
                    diagnostics.error(Some(*span), message);
                    return None;
                }
                match array_type {
                    ValueType::Array(inner) => Some(*inner),
                    other => {
                        let mut message = string_of("Indexing is only valid for arrays, got '");
                        push_str(&mut message, other.as_str());
                        push_str(&mut message, "'");
                        diagnostics.error(Some(*span), message);
                        None
                    },
                }
            },
            Expr::NewObject { span, .. } => {
                diagnostics.error(
                    Some(*span),
                    string_of(
                        "new Capability/new Right constructors are only allowed in capability/right declarations",
                    ),
                );
                None
            },
            Expr::Unary { op, expr: inner, span } => {
                let inner_type = match self.analyze_expr(inner, locals, right, Ghost(bound), diagnostics) {
                    Some(t) => t,
                    None => {
                        return None;
                    },
                };
                match op {
                    UnaryOp::Neg => {
                        if is_numeric(&inner_type) {
                            Some(inner_type)
                        } else {
                            let mut message = string_of("Operator '-' is only valid for int/float, got '");
                            push_str(&mut message, inner_type.as_str());
                            push_str(&mut message, "'");
                            diagnostics.error(Some(*span), message);
                            None
                        }
                    },
                    UnaryOp::Not => {
                        if inner_type.same(&ValueType::Bool) {
                            Some(ValueType::Bool)
                        } else {
                            let mut message = string_of("Operator '!' is only valid for bool, got '");
                            push_str(&mut message, inner_type.as_str());
                            push_str(&mut message, "'");
                            diagnostics.error(Some(*span), message);
                            None
                        }
                    },
                }
            },
            Expr::Binary { left, op, right: right_expr, span } => {
                let left_type = match self.analyze_expr(left, locals, right, Ghost(bound), diagnostics) {
                    Some(t) => t,
                    None => {
                        return None;
                    },
                };
                let right_type = match self.analyze_expr(right_expr, locals, right, Ghost(bound), diagnostics) {
                    Some(t) => t,
                    None => {
                        return None;
                    },
                };
                analyze_binary_expr(op, &left_type, &right_type, *span, diagnostics)
            },
            Expr::Ternary { condition, then_expr, else_expr, span } => {
                let condition_type = match self.analyze_expr(condition, locals, right, Ghost(bound), diagnostics) {
                    Some(t) => t,
                    None => {
                        return None;
                    },
                };
                if !condition_type.same(&ValueType::Bool) {
                    let mut message = string_of("Ternary condition must be bool, got '");
                    push_str(&mut message, condition_type.as_str());
                    push_str(&mut message, "'");
                    diagnostics.error(Some(condition.span()), message);
                    return None;
                }
                let then_type = match self.analyze_expr(then_expr, locals, right, Ghost(bound), diagnostics) {
                    Some(t) => t,
                    None => {
                        return None;
                    },
                };
                let else_type = match self.analyze_expr(else_expr, locals, right, Ghost(bound), diagnostics) {
                    Some(t) => t,
                    None => {
                        return None;
                    },
                };
                match unify_types(&then_type, &else_type) {
                    Some(t) => Some(t),
                    None => {
                        let mut message = string_of("Ternary branches have incompatible types '");
                        push_str(&mut message, then_type.as_str());
                        push_str(&mut message, "' and '");
                        push_str(&mut message, else_type.as_str());
                        push_str(&mut message, "'");
                        diagnostics.error(Some(*span), message);
                        None
                    },
                }
            },
            Expr::Call { callee, args, span } => match callee {
                CallTarget::Name(function_name) => {
                    if str_eq(function_name.as_str(), "Int") {
                        if args.len() != 1 {
                            let mut message = string_of("Int(...) expects exactly one argument, got ");
                            let count = usize_to_string(args.len());
                            push_str(&mut message, count.as_str());
                            diagnostics.error(Some(*span), message);
                            return None;
                        }
                        let arg_type = match self.analyze_expr(&args[0], locals, right, Ghost(bound), diagnostics) {
                            Some(t) => t,
                            None => {
                                return None;
                            },
                        };
                        match arg_type {
                            ValueType::Int | ValueType::Float | ValueType::Bool | ValueType::String => Some(ValueType::Int),
                            other => {
                                let mut message = string_of("Int(...) does not support conversion from '");
                                push_str(&mut message, other.as_str());
                                push_str(&mut message, "'");
                                diagnostics.error(Some(*span), message);
                                None
                            },
                        }
                    } else {
                        let signature = match self.functions.get(function_name.as_str()) {
                            Some(info) => info.duplicate(),
                            None => {
                                let mut message = string_of("Function '");
                                push_str(&mut message, function_name.as_str());
                                push_str(&mut message, "' not found");
                                diagnostics.error(Some(*span), message);
                                return None;
                            },
                        };
                        if signature.params.len() != args.len() {
                            let mut message = string_of("Function '");
                            push_str(&mut message, function_name.as_str());
                            push_str(&mut message, "' expects ");
                            let expected = usize_to_string(signature.params.len());
                            push_str(&mut message, expected.as_str());
                            push_str(&mut message, " argument(s), got ");
                            let got = usize_to_string(args.len());
                            push_str(&mut message, got.as_str());
                            diagnostics.error(Some(*span), message);
                            return None;
                        }
                        let ghost d0 = diagnostics@;
                        let ghost l = scope_of(*locals);
                        let ghost g = self.globals;
                        let ghost f = self.functions;
                        let ghost m = self.modules;
                        let mut index: usize = 0;
                        assert(args@.take(0) =~= Seq::<Expr>::empty());
                        while index < args.len()
                            invariant
                                clean(old(diagnostics)@, diagnostics@) ==> forall|j: int| 0 <= j < index ==> reads_ok(#[trigger] args@[j], scope_of(*locals), self.globals, allowed_by(right, Operation::Read), capability_allows(self.capabilities, Operation::Read)),
                                index <= args@.len(),
                                signature.params@.len() == args@.len(),
                                forall|j: int| 0 <= j < args@.len() ==> expr_strings_below(#[trigger] args@[j], bound),
                                *expr == (Expr::Call { callee: *callee, args: *args, span: *span }),
                                grows(d0, diagnostics@),
                                grows(old(diagnostics)@, d0),
                                good ==> diagnostics@ == old(diagnostics)@,
                                good == (interpolation_free(*expr) && expr_type(*expr, scope_of(*locals), self.globals, self.functions, self.modules) is Some
                                    && reads_ok(*expr, scope_of(*locals), self.globals, allowed_by(right, Operation::Read), capability_allows(self.capabilities, Operation::Read))),
                                l == scope_of(*locals) && g == self.globals && f == self.functions && m == self.modules,
                                function_name@ != "Int"@,
                                *callee == CallTarget::Name(*function_name),
                                f.get_spec(function_name@) matches Some(sig) && sig.params@
                                    == signature.params@ && sig.return_type == signature.return_type,
                                interpolation_free(*expr) || clean(old(diagnostics)@, diagnostics@) ==> (exprs_types(args@.take(index as int), l, g, f, m) matches Some(ts)
                                    && forall|i: int| 0 <= i < index ==> assignable(signature.params@[i], #[trigger] ts[i])),
                            decreases args.len() - index,
                        {
                            let argument = &args[index];
                            proof {
                                assert(decreases_to!(*expr => (*expr)->Call_args));
                                assert(decreases_to!(*args => args@));
                                assert(decreases_to!(args@ => args@[index as int]));
                                lemma_exprs_types_step(args@, index as int, l, g, f, m);
                                if good {
                                    lemma_exprs_types_at(args@, index as int, l, g, f, m);
                                    assert(interpolation_free(args@[index as int]));
                                    assert(reads_ok(args@[index as int], l, g, allowed_by(right, Operation::Read), capability_allows(self.capabilities, Operation::Read)));
                                }
                            }
                            let argument_type = match self.analyze_expr(argument, locals, right, Ghost(bound), diagnostics) {
                                Some(t) => t,
                                None => {
                                    proof {
                                        if interpolation_free(*expr) || clean(old(diagnostics)@, diagnostics@) {
                                            lemma_exprs_types_none(args@, index + 1, l, g, f, m);
                                        }
                                    }
                                    return None;
                                },
                            };
                            proof {
                                if interpolation_free(*expr) || clean(old(diagnostics)@, diagnostics@) {
                                    let ts = exprs_types(args@.take(index as int), l, g, f, m)->0;
                                    lemma_exprs_types_len(args@.take(index as int), l, g, f, m);
                                    let ts2 = ts.push(argument_type);
                                    assert(ts2[index as int] == argument_type);
                                    assert forall|i: int| 0 <= i < index implies ts2[i] == ts[i] by {}
                                }
                            }
                            let expected = &signature.params[index];
                            if !is_assignable(expected, &argument_type) {
                                proof {
                                    if (interpolation_free(*expr) || clean(old(diagnostics)@, diagnostics@)) && exprs_types(args@, l, g, f, m) is Some {
                                        lemma_exprs_types_prefix(args@, index + 1, l, g, f, m);
                                        let all = exprs_types(args@, l, g, f, m)->0;
                                        assert(all.take(index + 1)[index as int] == argument_type);
                                        assert(!assignable(signature.params@[index as int], all[index as int]));
                                    }
                                }
                                let mut message = string_of("Argument ");
                                let position = usize_to_string(index + 1);
                                push_str(&mut message, position.as_str());
                                push_str(&mut message, " for '");
                                push_str(&mut message, function_name.as_str());
                                push_str(&mut message, "' has type '");
                                push_str(&mut message, argument_type.as_str());
                                push_str(&mut message, "', expected '");
                                push_str(&mut message, expected.as_str());
                                push_str(&mut message, "'");
                                diagnostics.error(Some(argument.span()), message);
                                return None;
                            }
                            index += 1;
                        }
                        proof {
                            assert(args@.take(args@.len() as int) =~= args@);
                            if interpolation_free(*expr) || clean(old(diagnostics)@, diagnostics@) {
                                lemma_exprs_types_len(args@, l, g, f, m);
                            }
                        }
                        Some(signature.return_type)
                    }
                },
                CallTarget::Qualified { module, name } => {
                    self.analyze_module_call(module, name, args, *span, locals, right, Ghost(bound), diagnostics)
                },
            },
        }
    }

    #[verifier::rlimit(60)]
    #[verifier::spinoff_prover]
    fn analyze_module_call(
        &self,
        module: &String,
        name: &String,
        args: &Vec<Expr>,
        span: Span,
        locals: &NameMap<VariableInfo>,
        right: Option<&PermissionSet>,
        Ghost(bound): Ghost<nat>,
        diagnostics: &mut Diagnostics,
    ) -> (r: Option<ValueType>)
        requires
            forall|j: int| 0 <= j < args@.len() ==> expr_strings_below(#[trigger] args@[j], bound),
        ensures
            grows(old(diagnostics)@, final(diagnostics)@),
            r is None ==> error_count(old(diagnostics)@) < error_count(final(diagnostics)@),
            self.modules.module_spec(module@) is None ==> r is None && final(diagnostics)@ == old(diagnostics)@.push(
                error_at(Some(span), "Module '"@ + module@ + "' is not imported"@)),
            self.modules.module_spec(module@) is Some && module@ == "Bridge"@ && (name@ == "println"@ || name@ == "print"@)
                ==> forall|k: int| #[trigger] self.first_unprintable(*args, *locals, right, k) ==> r is None
                && final(diagnostics)@ == old(diagnostics)@.push(error_at(Some(expr_span(args@[k])), "Bridge."@ + name@
                + " does not support argument type '"@ + shown_type_name(self.type_in(args@[k], *locals)->0) + "'"@)),
            self.modules.module_spec(module@) is Some && module@ == "Bridge"@ && (name@ == "sleep"@ || name@ == "usleep"@)
                && args@.len() != 1 ==> r is None && final(diagnostics)@ == old(diagnostics)@.push(error_at(Some(span),
                "Bridge."@ + name@ + " expects exactly one int argument"@)),
            self.modules.module_spec(module@) is Some && module@ == "Bridge"@ && (name@ == "sleep"@ || name@ == "usleep"@)
                && args@.len() == 1 && self.settled(args@[0], *locals, right) && self.type_in(args@[0], *locals) != Some(ValueType::Int)
                ==> r is None && final(diagnostics)@ == old(diagnostics)@.push(error_at(Some(expr_span(args@[0])),
                "Bridge."@ + name@ + " expects int, got '"@ + shown_type_name(self.type_in(args@[0], *locals)->0) + "'"@)),
            (forall|j: int| 0 <= j < args@.len() ==> interpolation_free(#[trigger] args@[j])) || clean(old(diagnostics)@, final(diagnostics)@) ==> r
                == qualified_call_type(
                module@,
                name@,
                args@.len(),
                exprs_types(args@, scope_of(*locals), self.globals, self.functions, self.modules),
                if args@.len() > 0 {
                    expr_type(args@[0], scope_of(*locals), self.globals, self.functions, self.modules)
                } else {
                    None
                },
                self.modules,
            ),
            clean(old(diagnostics)@, final(diagnostics)@) && r is Some ==> forall|j: int|
                0 <= j < args@.len() ==> reads_ok(
                    #[trigger] args@[j],
                    scope_of(*locals),
                    self.globals,
                    allowed_by(right, Operation::Read),
                    capability_allows(self.capabilities, Operation::Read),
                ),
            (forall|j: int| 0 <= j < args@.len() ==> interpolation_free(#[trigger] args@[j]) && reads_ok(
                args@[j],
                scope_of(*locals),
                self.globals,
                allowed_by(right, Operation::Read),
                capability_allows(self.capabilities, Operation::Read),
            )) && qualified_call_type(
                module@,
                name@,
                args@.len(),
                exprs_types(args@, scope_of(*locals), self.globals, self.functions, self.modules),
                if args@.len() > 0 {
                    expr_type(args@[0], scope_of(*locals), self.globals, self.functions, self.modules)
                } else {
                    None
                },
                self.modules,
            ) is Some ==> final(diagnostics)@ == old(diagnostics)@,
        decreases bound, args@,
    {
        proof {
            reveal_strlit("sleep");
            reveal_strlit("usleep");
            reveal_strlit("print");
            reveal_strlit("println");
            reveal_strlit("system");
        }
        let ghost l = scope_of(*locals);
        let ghost g = self.globals;
        let ghost f = self.functions;
        let ghost m = self.modules;
        let ghost free = forall|j: int| 0 <= j < args@.len() ==> interpolation_free(#[trigger] args@[j]);
        let ghost typed = qualified_call_type(
            module@,
            name@,
            args@.len(),
            exprs_types(args@, l, g, f, m),
            if args@.len() > 0 {
                expr_type(args@[0], l, g, f, m)
            } else {
                None
            },
            m,
        );
        let ghost good = (forall|j: int| 0 <= j < args@.len() ==> interpolation_free(#[trigger] args@[j]) && reads_ok(
            args@[j],
            l,
            g,
            allowed_by(right, Operation::Read),
            capability_allows(self.capabilities, Operation::Read),
        )) && typed is Some;
        assert(args@.take(0) =~= Seq::<Expr>::empty());
        if !self.modules.contains(module.as_str()) {
            let mut message = string_of("Module '");
            push_str(&mut message, module.as_str());
            push_str(&mut message, "' is not imported");
            diagnostics.error(Some(span), message);
            return None;
        }
        let ghost d0 = diagnostics@;
        if str_eq(module.as_str(), "Bridge") {
            if str_eq(name.as_str(), "println") || str_eq(name.as_str(), "print") {
                proof {
                    assert("println"@.len() != "sleep"@.len() && "println"@.len() != "usleep"@.len());
                    assert("print"@[0] != "sleep"@[0] && "print"@.len() != "usleep"@.len());
                }
                let mut k: usize = 0;
                while k < args.len()
                    invariant
                        clean(old(diagnostics)@, diagnostics@) ==> forall|j: int| 0 <= j < k ==> reads_ok(#[trigger] args@[j], scope_of(*locals), self.globals, allowed_by(right, Operation::Read), capability_allows(self.capabilities, Operation::Read)),
                        k <= args@.len(),
                        forall|j: int| 0 <= j < args@.len() ==> expr_strings_below(#[trigger] args@[j], bound),
                        grows(d0, diagnostics@),
                        grows(old(diagnostics)@, d0),
                        good ==> diagnostics@ == old(diagnostics)@,
                        good == ((forall|j: int| 0 <= j < args@.len() ==> interpolation_free(#[trigger] args@[j]) && reads_ok(
                            args@[j],
                            l,
                            g,
                            allowed_by(right, Operation::Read),
                            capability_allows(self.capabilities, Operation::Read),
                        )) && typed is Some),
                        typed == qualified_call_type(
                            module@,
                            name@,
                            args@.len(),
                            exprs_types(args@, l, g, f, m),
                            if args@.len() > 0 {
                                expr_type(args@[0], l, g, f, m)
                            } else {
                                None
                            },
                            m,
                        ),
                        l == scope_of(*locals) && g == self.globals && f == self.functions && m == self.modules,
                        free == forall|j: int| 0 <= j < args@.len() ==> interpolation_free(#[trigger] args@[j]),
                        self.modules.module_spec(module@) is Some,
                        module@ == "Bridge"@ && (name@ == "println"@ || name@ == "print"@),
                        name@ != "sleep"@ && name@ != "usleep"@,
                        forall|kk: int| k <= kk && #[trigger] self.first_unprintable(*args, *locals, right, kk) ==> diagnostics@ == old(diagnostics)@,
                        forall|kk: int| 0 <= kk < k ==> !#[trigger] self.first_unprintable(*args, *locals, right, kk),
                        free || clean(old(diagnostics)@, diagnostics@) ==> (exprs_types(args@.take(k as int), l, g, f, m) matches Some(ts) && forall|i: int|
                            0 <= i < k ==> printable(#[trigger] ts[i])),
                    decreases args.len() - k,
                {
                    let argument = &args[k];
                    proof {
                        lemma_exprs_types_step(args@, k as int, l, g, f, m);
                    }
                    proof {
                        if good {
                            lemma_exprs_types_at(args@, k as int, l, g, f, m);
                        }
                    }
                    proof {
                        if exists|kk: int| k <= kk && #[trigger] self.first_unprintable(*args, *locals, right, kk) {
                            let kk = choose|kk: int| k <= kk && #[trigger] self.first_unprintable(*args, *locals, right, kk);
                            if kk > k {
                                assert(self.settled(args@[k as int], *locals, right));
                            }
                        }
                    }
                    let argument_type = match self.analyze_expr(argument, locals, right, Ghost(bound), diagnostics) {
                        Some(t) => t,
                        None => {
                            proof {
                                if free || clean(old(diagnostics)@, diagnostics@) {
                                    lemma_exprs_types_none(args@, k + 1, l, g, f, m);
                                }
                            }
                            return None;
                        },
                    };
                    proof {
                        if free || clean(old(diagnostics)@, diagnostics@) {
                            let ts = exprs_types(args@.take(k as int), l, g, f, m)->0;
                            lemma_exprs_types_len(args@.take(k as int), l, g, f, m);
                            assert forall|i: int| 0 <= i < k implies ts.push(argument_type)[i] == ts[i] by {}
                            assert(ts.push(argument_type)[k as int] == argument_type);
                            if exprs_types(args@, l, g, f, m) is Some {
                                lemma_exprs_types_prefix(args@, k + 1, l, g, f, m);
                                let all = exprs_types(args@, l, g, f, m)->0;
                                assert(all.take(k + 1)[k as int] == argument_type);
                                assert(all[k as int] == argument_type);
                            }
                        }
                    }
                    proof {
                        if self.settled(args@[k as int], *locals, right) {
                            assert(argument_type == self.type_in(args@[k as int], *locals)->0);
                        }
                        assert forall|kk: int| k < kk && #[trigger] self.first_unprintable(*args, *locals, right, kk)
                            implies printable(argument_type) by {
                            assert(self.settled(args@[k as int], *locals, right));
                        }
                    }
                    match argument_type {
                        ValueType::Int | ValueType::Float | ValueType::String | ValueType::Bool => {},
                        other => {
                            let mut message = string_of("Bridge.");
                            push_str(&mut message, name.as_str());
                            push_str(&mut message, " does not support argument type '");
                            push_str(&mut message, other.as_str());
                            push_str(&mut message, "'");
                            diagnostics.error(Some(argument.span()), message);
                            return None;
                        },
                    }
                    k += 1;
                }
                proof {
                    assert(args@.take(args@.len() as int) =~= args@);
                    if free || clean(old(diagnostics)@, diagnostics@) {
                        lemma_exprs_types_len(args@, l, g, f, m);
                    }
                }
                return Some(ValueType::Void);
            }
            if str_eq(name.as_str(), "sleep") || str_eq(name.as_str(), "usleep") {
                proof {
                    assert("sleep"@[0] != "print"@[0] && "sleep"@.len() != "println"@.len());
                    assert("usleep"@[0] != "print"@[0] && "usleep"@[0] != "println"@[0]);
                }
                if args.len() != 1 {
                    let mut message = string_of("Bridge.");
                    push_str(&mut message, name.as_str());
                    push_str(&mut message, " expects exactly one int argument");
                    diagnostics.error(Some(span), message);
                    return None;
                }
                let arg_ty = match self.analyze_expr(&args[0], locals, right, Ghost(bound), diagnostics) {
                    Some(t) => t,
                    None => {
                        return None;
                    },
                };
                if !arg_ty.same(&ValueType::Int) {
                    let mut message = string_of("Bridge.");
                    push_str(&mut message, name.as_str());
                    push_str(&mut message, " expects int, got '");
                    push_str(&mut message, arg_ty.as_str());
                    push_str(&mut message, "'");
                    diagnostics.error(Some(args[0].span()), message);
                    return None;
                }
                return Some(ValueType::Void);
            }
            if str_eq(name.as_str(), "system") {
                proof {
                    assert("system"@.len() != "sleep"@.len());
                    assert("system"@[0] != "usleep"@[0]);
                    assert("system"@.len() != "print"@.len() && "system"@.len() != "println"@.len());
                }
                let mut k: usize = 0;
                while k < args.len()
                    invariant
                        clean(old(diagnostics)@, diagnostics@) ==> forall|j: int| 0 <= j < k ==> reads_ok(#[trigger] args@[j], scope_of(*locals), self.globals, allowed_by(right, Operation::Read), capability_allows(self.capabilities, Operation::Read)),
                        k <= args@.len(),
                        forall|j: int| 0 <= j < args@.len() ==> expr_strings_below(#[trigger] args@[j], bound),
                        grows(d0, diagnostics@),
                        grows(old(diagnostics)@, d0),
                        good ==> diagnostics@ == old(diagnostics)@,
                        good == ((forall|j: int| 0 <= j < args@.len() ==> interpolation_free(#[trigger] args@[j]) && reads_ok(
                            args@[j],
                            l,
                            g,
                            allowed_by(right, Operation::Read),
                            capability_allows(self.capabilities, Operation::Read),
                        )) && typed is Some),
                        typed == qualified_call_type(
                            module@,
                            name@,
                            args@.len(),
                            exprs_types(args@, l, g, f, m),
                            if args@.len() > 0 {
                                expr_type(args@[0], l, g, f, m)
                            } else {
                                None
                            },
                            m,
                        ),
                        l == scope_of(*locals) && g == self.globals && f == self.functions && m == self.modules,
                        free == forall|j: int| 0 <= j < args@.len() ==> interpolation_free(#[trigger] args@[j]),
                        self.modules.module_spec(module@) is Some,
                        module@ == "Bridge"@ && name@ == "system"@,
                        name@ != "sleep"@ && name@ != "usleep"@,
                        name@ != "println"@ && name@ != "print"@,
                        !(name@ == "println"@ || name@ == "print"@ || name@ == "sleep"@ || name@ == "usleep"@),
                        free || clean(old(diagnostics)@, diagnostics@) ==> (exprs_types(args@.take(k as int), l, g, f, m) matches Some(ts) && forall|i: int|
                            0 <= i < k ==> #[trigger] ts[i] == ValueType::String),
                    decreases args.len() - k,
                {
                    let argument = &args[k];
                    proof {
                        lemma_exprs_types_step(args@, k as int, l, g, f, m);
                    }
                    proof {
                        if good {
                            lemma_exprs_types_at(args@, k as int, l, g, f, m);
                        }
                    }
                    let arg_ty = match self.analyze_expr(argument, locals, right, Ghost(bound), diagnostics) {
                        Some(t) => t,
                        None => {
                            proof {
                                if free || clean(old(diagnostics)@, diagnostics@) {
                                    lemma_exprs_types_none(args@, k + 1, l, g, f, m);
                                }
                            }
                            return None;
                        },
                    };
                    proof {
                        if free || clean(old(diagnostics)@, diagnostics@) {
                            let ts = exprs_types(args@.take(k as int), l, g, f, m)->0;
                            lemma_exprs_types_len(args@.take(k as int), l, g, f, m);
                            assert forall|i: int| 0 <= i < k implies ts.push(arg_ty)[i] == ts[i] by {}
                            assert(ts.push(arg_ty)[k as int] == arg_ty);
                            if exprs_types(args@, l, g, f, m) is Some {
                                lemma_exprs_types_prefix(args@, k + 1, l, g, f, m);
                                let all = exprs_types(args@, l, g, f, m)->0;
                                assert(all.take(k + 1)[k as int] == arg_ty);
                                assert(all[k as int] == arg_ty);
                            }
                        }
                    }
                    if !arg_ty.same(&ValueType::String) {
                        let mut message = string_of("Bridge.system expects only string arguments, got '");
                        push_str(&mut message, arg_ty.as_str());
                        push_str(&mut message, "'");
                        diagnostics.error(Some(argument.span()), message);
                        return None;
                    }
                    k += 1;
                }
                proof {
                    assert(args@.take(args@.len() as int) =~= args@);
                    if free || clean(old(diagnostics)@, diagnostics@) {
                        lemma_exprs_types_len(args@, l, g, f, m);
                    }
                }
                return Some(ValueType::Void);
            }
        }
        let mut argument_types: Vec<ValueType> = Vec::new();
        let mut k: usize = 0;
        while k < args.len()
            invariant
                clean(old(diagnostics)@, diagnostics@) ==> forall|j: int| 0 <= j < k ==> reads_ok(#[trigger] args@[j], scope_of(*locals), self.globals, allowed_by(right, Operation::Read), capability_allows(self.capabilities, Operation::Read)),
                k <= args@.len(),
                forall|j: int| 0 <= j < args@.len() ==> expr_strings_below(#[trigger] args@[j], bound),
                grows(d0, diagnostics@),
                grows(old(diagnostics)@, d0),
                good ==> diagnostics@ == old(diagnostics)@,
                good == ((forall|j: int| 0 <= j < args@.len() ==> interpolation_free(#[trigger] args@[j]) && reads_ok(
                    args@[j],
                    l,
                    g,
                    allowed_by(right, Operation::Read),
                    capability_allows(self.capabilities, Operation::Read),
                )) && typed is Some),
                typed == qualified_call_type(
                    module@,
                    name@,
                    args@.len(),
                    exprs_types(args@, l, g, f, m),
                    if args@.len() > 0 {
                        expr_type(args@[0], l, g, f, m)
                    } else {
                        None
                    },
                    m,
                ),
                l == scope_of(*locals) && g == self.globals && f == self.functions && m == self.modules,
                free == forall|j: int| 0 <= j < args@.len() ==> interpolation_free(#[trigger] args@[j]),
                self.modules.module_spec(module@) is Some,
                !(module@ == "Bridge"@ && (name@ == "println"@ || name@ == "print"@ || name@ == "sleep"@
                    || name@ == "usleep"@ || name@ == "system"@)),
                free || clean(old(diagnostics)@, diagnostics@) ==> exprs_types(args@.take(k as int), l, g, f, m) == Some(argument_types@),
            decreases args.len() - k,
        {
            proof {
                lemma_exprs_types_step(args@, k as int, l, g, f, m);
            }
                proof {
                    if good {
                        lemma_exprs_types_at(args@, k as int, l, g, f, m);
                    }
                }
            let argument_type = match self.analyze_expr(&args[k], locals, right, Ghost(bound), diagnostics) {
                Some(t) => t,
                None => {
                    proof {
                        if free || clean(old(diagnostics)@, diagnostics@) {
                            lemma_exprs_types_none(args@, k + 1, l, g, f, m);
                        }
                    }
                    return None;
                },
            };
            argument_types.push(argument_type);
            k += 1;
        }
        proof {
            assert(args@.take(args@.len() as int) =~= args@);
        }
        match self.modules.resolve_call(module.as_str(), name.as_str(), argument_types.as_slice()) {
            Some(resolved) => Some(resolved.return_type),
            None => {
                let mut message = string_of("No matching signature found for call ");
                push_str(&mut message, module.as_str());
                push_str(&mut message, ".");
                push_str(&mut message, name.as_str());
                push_str(&mut message, "(");
                let mut k: usize = 0;
                while k < argument_types.len()
                    invariant
                        k <= argument_types@.len(),
                    decreases argument_types.len() - k,
                {
                    if k > 0 {
                        push_str(&mut message, ", ");
                    }
                    push_str(&mut message, argument_types[k].as_str());
                    k += 1;
                }
                push_str(&mut message, ")");
                let expected = self.modules.expected_signatures(module.as_str(), name.as_str());
                if expected.len() > 0 {
                    push_str(&mut message, ". Available: ");
                    let joined = join_strings(&expected, "; ");
                    push_str(&mut message, joined.as_str());
                }
                diagnostics.error(Some(span), message);
                None
            },
        }
    }

    fn lookup_variable(
        &self,
        name: &str,
        span: Span,
        locals: &NameMap<VariableInfo>,
        diagnostics: &mut Diagnostics,
    ) -> (r: Option<VariableInfo>)
        ensures
            grows(old(diagnostics)@, final(diagnostics)@),
            r is Some ==> final(diagnostics)@ == old(diagnostics)@,
            r is None ==> error_count(old(diagnostics)@) < error_count(final(diagnostics)@),
            locals.get_spec(name@) is None && self.globals.get_spec(name@) is None ==> final(diagnostics)@
                == old(diagnostics)@.push(error_at(Some(span), "Unknown variable '"@ + name@ + "'"@)),
            locals.get_spec(name@) matches Some(v) ==> r == Some(v) && final(diagnostics)@
                == old(diagnostics)@,
            match r {
                Some(v) => variable_type(scope_of(*locals), self.globals, name@) == Some(v.ty),
                None => variable_type(scope_of(*locals), self.globals, name@) is None,
            },
            r == variable_of(scope_of(*locals), self.globals, name@),
    {
        match locals.get(name) {
            Some(local) => {
                return Some(local.duplicate());
            },
            None => {},
        }
        match self.globals.get(name) {
            Some(global) => {
                if global.ty.same(&ValueType::Void) {
                    let mut message = string_of("Global variable '");
                    push_str(&mut message, name);
                    push_str(
                        &mut message,
                        "' is used before type is resolved (check declaration order)",
                    );
                    diagnostics.error(Some(global.span), message);
                    return None;
                }
                Some(global.duplicate())
            },
            None => {
                let mut message = string_of("Unknown variable '");
                push_str(&mut message, name);
                push_str(&mut message, "'");
                diagnostics.error(Some(span), message);
                None
            },
        }
    }

    fn enforce_read_access(
        &self,
        variable: &VariableInfo,
        right: Option<&PermissionSet>,
        span: Span,
        diagnostics: &mut Diagnostics,
    )
        ensures
            grows(old(diagnostics)@, final(diagnostics)@),
            right matches Some(r) && !r.permits(Operation::Read) ==> error_count(old(diagnostics)@)
                < error_count(final(diagnostics)@),
            !(variable.entitlement matches Some(c) ==> capability_allows(self.capabilities, Operation::Read)(c@))
                ==> error_count(old(diagnostics)@) < error_count(final(diagnostics)@),
            allowed_by(right, Operation::Read) && (variable.entitlement matches Some(c)
                ==> capability_allows(self.capabilities, Operation::Read)(c@)) ==> final(diagnostics)@
                == old(diagnostics)@,
    {
        self.enforce_right(right, Operation::Read, span, diagnostics);
        self.enforce_capability(variable, Operation::Read, span, diagnostics);
    }

    fn enforce_write_access(
        &self,
        variable: &VariableInfo,
        right: Option<&PermissionSet>,
        span: Span,
        diagnostics: &mut Diagnostics,
    )
        ensures
            grows(old(diagnostics)@, final(diagnostics)@),
            right matches Some(r) && !r.permits(Operation::Write) ==> error_count(old(diagnostics)@)
                < error_count(final(diagnostics)@),
            !(variable.entitlement matches Some(c) ==> capability_allows(self.capabilities, Operation::Write)(c@)) ==> error_count(old(diagnostics)@)
                < error_count(final(diagnostics)@),
            allowed_by(right, Operation::Write) && (variable.entitlement matches Some(c)
                ==> capability_allows(self.capabilities, Operation::Write)(c@)) ==> final(diagnostics)@
                == old(diagnostics)@,
    {
        self.enforce_right(right, Operation::Write, span, diagnostics);
        self.enforce_capability(variable, Operation::Write, span, diagnostics);
    }

    fn enforce_right(
        &self,
        right: Option<&PermissionSet>,
        operation: Operation,
        span: Span,
        diagnostics: &mut Diagnostics,
    )
        ensures
            grows(old(diagnostics)@, final(diagnostics)@),
            right matches Some(r) && !r.permits(operation) ==> error_count(final(diagnostics)@)
                == error_count(old(diagnostics)@) + 1,
            !(right matches Some(r) && !r.permits(operation)) ==> final(diagnostics)@ == old(
                diagnostics,
            )@,
    {
        match right {
            Some(set) => {
                if !set.allows(operation) {
                    let mut message = string_of("Right violation: operation '");
                    push_str(&mut message, op_name(operation));
                    push_str(&mut message, "' is not allowed (rule: ");
                    let rule = join_strings(&set.raw, ", ");
                    push_str(&mut message, rule.as_str());
                    push_str(&mut message, ")");
                    diagnostics.error(Some(span), message);
                }
            },
            None => {},
        }
    }

    fn enforce_capability(
        &self,
        variable: &VariableInfo,
        operation: Operation,
        span: Span,
        diagnostics: &mut Diagnostics,
    )
        ensures
            grows(old(diagnostics)@, final(diagnostics)@),
            ({
                let violated = variable.entitlement matches Some(c) && (self.capabilities.get_spec(
                    c@,
                ) matches Some(set) && !set.permits(operation));
                &&& violated ==> error_count(final(diagnostics)@) == error_count(old(diagnostics)@)
                    + 1
                &&& !violated ==> final(diagnostics)@ == old(diagnostics)@
            }),
    {
        let capability_name = match &variable.entitlement {
            Some(c) => c,
            None => {
                return;
            },
        };
        match self.capabilities.get(capability_name.as_str()) {
            Some(set) => {
                if !set.allows(operation) {
                    let mut message = string_of("Capability violation '");
                    push_str(&mut message, capability_name.as_str());
                    push_str(&mut message, "': operation '");
                    push_str(&mut message, op_name(operation));
                    push_str(&mut message, "' is not allowed (rule: ");
                    let rule = join_strings(&set.raw, ", ");
                    push_str(&mut message, rule.as_str());
                    push_str(&mut message, ")");
                    diagnostics.error(Some(span), message);
                }
            },
            None => {},
        }
    }

    fn assignment_target_info(
        &self,
        target: &AssignTarget,
        locals: &NameMap<VariableInfo>,
        right: Option<&PermissionSet>,
        span: Span,
        diagnostics: &mut Diagnostics,
    ) -> (r: Option<(VariableInfo, ValueType)>)
        ensures
            grows(old(diagnostics)@, final(diagnostics)@),
            r is None ==> error_count(old(diagnostics)@) < error_count(final(diagnostics)@),
            (*target matches AssignTarget::Index { array, index } ==> interpolation_free(array) && interpolation_free(index)
                && reads_ok(array, scope_of(*locals), self.globals, allowed_by(right, Operation::Read), capability_allows(self.capabilities, Operation::Read))
                && reads_ok(index, scope_of(*locals), self.globals, allowed_by(right, Operation::Read), capability_allows(self.capabilities, Operation::Read)))
                && target_type(*target, scope_of(*locals), self.globals, self.functions, self.modules) is Some
                && target_root(*target, scope_of(*locals), self.globals) is Some
                ==> r is Some && final(diagnostics)@ == old(diagnostics)@,
            clean(old(diagnostics)@, final(diagnostics)@) ==> (r matches Some((v, _)) ==> target_root(
                *target,
                scope_of(*locals),
                self.globals,
            ) == Some(v)),
            clean(old(diagnostics)@, final(diagnostics)@) ==> match r {
                Some((_, tt)) => target_type(*target, scope_of(*locals), self.globals, self.functions, self.modules) == Some(tt),
                None => target_type(*target, scope_of(*locals), self.globals, self.functions, self.modules) is None,
            },
            clean(old(diagnostics)@, final(diagnostics)@) ==> (*target matches AssignTarget::Index {
                array,
                index,
            } ==> (expr_type(array, scope_of(*locals), self.globals, self.functions, self.modules) matches Some(a) ==> (expr_type(
                index,
                scope_of(*locals),
                self.globals, self.functions, self.modules,
            ) matches Some(x) ==> (a is Array && x == ValueType::Int)))),
            clean(old(diagnostics)@, final(diagnostics)@) ==> (*target matches AssignTarget::Index {
                array,
                index,
            } ==> ((expr_type(array, scope_of(*locals), self.globals, self.functions, self.modules) is Some
                ==> reads_ok(array, scope_of(*locals), self.globals, allowed_by(right, Operation::Read), capability_allows(self.capabilities, Operation::Read))) && (expr_type(array, scope_of(*locals), self.globals, self.functions, self.modules) is Some
                && expr_type(index, scope_of(*locals), self.globals, self.functions, self.modules) is Some ==> reads_ok(index, scope_of(*locals), self.globals, allowed_by(right, Operation::Read), capability_allows(self.capabilities, Operation::Read))))),
    {
        match target {
            AssignTarget::Identifier(name) => {
                let variable = match self.lookup_variable(name.as_str(), span, locals, diagnostics) {
                    Some(v) => v,
                    None => {
                        return None;
                    },
                };
                let ty = variable.ty.duplicate();
                Some((variable, ty))
            },
            AssignTarget::Index { array, index } => {
                let array_type = match self.analyze_root_expr(array, locals, right, diagnostics) {
                    Some(t) => t,
                    None => {
                        return None;
                    },
                };
                let index_type = match self.analyze_root_expr(index, locals, right, diagnostics) {
                    Some(t) => t,
                    None => {
                        return None;
                    },
                };
                if !index_type.same(&ValueType::Int) {
                    let mut message = string_of("Array index must be int, got '");
                    push_str(&mut message, index_type.as_str());
                    push_str(&mut message, "'");
                    diagnostics.error(Some(span), message);
                    return None;
                }
                let owning_variable = match self.find_root_variable(array, locals, diagnostics) {
                    Some(v) => v,
                    None => {
                        diagnostics.error(
                            Some(span),
                            string_of("Array assignment target must originate from a variable"),
                        );
                        return None;
                    },
                };
                match array_type {
                    ValueType::Array(inner) => Some((owning_variable, *inner)),
                    other => {
                        let mut message = string_of("Index assignment requires array target, got '");
                        push_str(&mut message, other.as_str());
                        push_str(&mut message, "'");
                        diagnostics.error(Some(span), message);
                        None
                    },
                }
            },
        }
    }

    fn find_root_variable(
        &self,
        expr: &Expr,
        locals: &NameMap<VariableInfo>,
        diagnostics: &mut Diagnostics,
    ) -> (r: Option<VariableInfo>)
        ensures
            grows(old(diagnostics)@, final(diagnostics)@),
            r == root_variable(*expr, scope_of(*locals), self.globals),
            r is Some ==> final(diagnostics)@ == old(diagnostics)@,
        decreases *expr,
    {
        match expr {
            Expr::Identifier(name, span) => self.lookup_variable(name.as_str(), *span, locals, diagnostics),
            Expr::Index { array, .. } => self.find_root_variable(array, locals, diagnostics),
            _ => None,
        }
    }
}

/// The type of a binary operation; an error when the operand types do not fit it.
pub fn analyze_binary_expr(
    op: &BinaryOp,
    left_type: &ValueType,
    right_type: &ValueType,
    span: Span,
    diagnostics: &mut Diagnostics,
) -> (r: Option<ValueType>)
    ensures
        r == binary_type(*op, *left_type, *right_type),
        r is Some ==> final(diagnostics)@ == old(diagnostics)@,
        r is None ==> final(diagnostics)@.len() == old(diagnostics)@.len() + 1,
        r is None ==> final(diagnostics)@.last().severity == crate::diagnostics::Severity::Error,
        r is None ==> final(diagnostics)@.last().span == Some(span),
        r is None ==> extends(old(diagnostics)@, final(diagnostics)@),
        r is None ==> error_count(final(diagnostics)@) == error_count(old(diagnostics)@) + 1,
{
    let (ok, result, what) = match op {
        BinaryOp::Add | BinaryOp::Sub | BinaryOp::Mul | BinaryOp::Div | BinaryOp::Mod => {
            if is_numeric(left_type) && is_numeric(right_type) {
                if left_type.same(&ValueType::Float) || right_type.same(&ValueType::Float) {
                    (true, ValueType::Float, "")
                } else {
                    (true, ValueType::Int, "")
                }
            } else {
                (false, ValueType::Void, "Arithmetic operator requires int/float, got '")
            }
        },
        BinaryOp::Eq | BinaryOp::NotEq => {
            if left_type.same(right_type) || (is_numeric(left_type) && is_numeric(right_type)) {
                (true, ValueType::Bool, "")
            } else {
                (false, ValueType::Void, "Equality comparison requires compatible types, got '")
            }
        },
        BinaryOp::Greater | BinaryOp::GreaterEq | BinaryOp::Less | BinaryOp::LessEq => {
            if is_numeric(left_type) && is_numeric(right_type) {
                (true, ValueType::Bool, "")
            } else {
                (false, ValueType::Void, "Comparison operator requires int/float, got '")
            }
        },
        BinaryOp::And | BinaryOp::Or => {
            if left_type.same(&ValueType::Bool) && right_type.same(&ValueType::Bool) {
                (true, ValueType::Bool, "")
            } else {
                (false, ValueType::Void, "Logical operator requires bool, got '")
            }
        },
    };
    if ok {
        return Some(result);
    }
    let mut message = string_of(what);
    push_str(&mut message, left_type.as_str());
    push_str(&mut message, "' and '");
    push_str(&mut message, right_type.as_str());
    push_str(&mut message, "'");
    diagnostics.error(Some(span), message);
    None
}

/// A copy of a scope, for a nested block.
fn clone_scope(scope: &NameMap<VariableInfo>) -> (r: NameMap<VariableInfo>)
    ensures
        scope_of(r) == scope_of(*scope),
{
    let mut out: NameMap<VariableInfo> = NameMap::new();
    let mut i: usize = 0;
    proof {
        assert forall|k: Seq<char>| #[trigger] out.get_spec(k) == lookup(scope.entries().take(0), k) by {
            assert(scope.entries().take(0) =~= Seq::<(String, VariableInfo)>::empty());
        }
    }
    while i < scope.len()
        invariant
            i <= scope.entries().len(),
            forall|k: Seq<char>| #[trigger] out.get_spec(k) == lookup(scope.entries().take(i as int), k),
        decreases scope.entries().len() - i,
    {
        let (name, info) = scope.entry(i);
        proof {
            assert forall|k: Seq<char>| true implies #[trigger] lookup(scope.entries().take(i + 1), k) == match lookup(scope.entries().take(i as int), k) {
                Some(v) => Some(v),
                None => if scope.entries()[i as int].0@ == k {
                    Some(scope.entries()[i as int].1)
                } else {
                    None
                },
            } by {
                crate::names::lemma_lookup_take(scope.entries(), i as int, k);
            }
        }
        if !out.contains_key(name.as_str()) {
            out.insert(name.clone(), info.duplicate());
        }
        i += 1;
    }
    proof {
        assert(scope.entries().take(scope.entries().len() as int) =~= scope.entries());
        assert(scope_of(out) =~= scope_of(*scope));
    }
    out
}

} // verus!
