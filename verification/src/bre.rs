//! ved's BRE engine: a compiled pattern with bracket expressions, capturing
//! groups and backreferences, and a backtracking matcher.
//!
//! The matcher's meaning is given by the spec functions `here` and `search`
//! below: elements are tried left to right, a starred atom first tries zero
//! repetitions, then one, and so on, and the search slides the start offset
//! one byte at a time unless the pattern is anchored with `^`. Groups are
//! numbered 1 to 9; a compiled pattern with more groups than that can still be
//! searched, but the search reports `Unsupported` when it reaches such a group.

use vstd::prelude::*;
use crate::ascii::{
    AMPERSAND, BACKSLASH, CARET, DASH, DIGIT_0, DIGIT_1, DIGIT_7, DIGIT_9, DOLLAR, DOT, LBRACKET, LPAREN,
    RBRACKET, RPAREN, STAR,
};

verus! {

// ── Models ───────────────────────────────────────────────────

/// One matchable thing: a literal byte, the any-byte wildcard, or a bracket
/// class (negated or not) listing its member bytes.
pub enum AtomModel {
    Literal(u8),
    Dot,
    Class(bool, Seq<u8>),
}

/// One element of a compiled pattern.
pub enum ElemModel {
    One(AtomModel),
    Star(AtomModel),
    Caret,
    Dollar,
    GroupStart(nat),
    GroupEnd(nat),
    BackRef(nat),
}

/// Capture state for groups 1 to 9: their start and end offsets and whether
/// each group has closed during the match.
pub struct CapsModel {
    pub start: Seq<int>,
    pub end: Seq<int>,
    pub valid: Seq<bool>,
}

// ── Executable types ─────────────────────────────────────────

pub enum Atom {
    Literal(u8),
    Dot,
    Class { negated: bool, chars: Vec<u8> },
}

pub enum Element {
    One(Atom),
    Star(Atom),
    Caret,
    Dollar,
    GroupStart(usize),
    GroupEnd(usize),
    BackRef(usize),
}

impl View for Atom {
    type V = AtomModel;

    open spec fn view(&self) -> AtomModel {
        match self {
            Atom::Literal(c) => AtomModel::Literal(*c),
            Atom::Dot => AtomModel::Dot,
            Atom::Class { negated, chars } => AtomModel::Class(*negated, chars@),
        }
    }
}

impl View for Element {
    type V = ElemModel;

    open spec fn view(&self) -> ElemModel {
        match self {
            Element::One(a) => ElemModel::One(a@),
            Element::Star(a) => ElemModel::Star(a@),
            Element::Caret => ElemModel::Caret,
            Element::Dollar => ElemModel::Dollar,
            Element::GroupStart(n) => ElemModel::GroupStart(*n as nat),
            Element::GroupEnd(n) => ElemModel::GroupEnd(*n as nat),
            Element::BackRef(n) => ElemModel::BackRef(*n as nat),
        }
    }
}

pub open spec fn elems_model(v: Seq<Element>) -> Seq<ElemModel> {
    v.map_values(|e: Element| e@)
}

// ── Atoms ────────────────────────────────────────────────────

/// Whether `atom` accepts the byte `b`.
pub open spec fn atom_accepts(atom: AtomModel, b: u8) -> bool {
    match atom {
        AtomModel::Literal(c) => b == c,
        AtomModel::Dot => true,
        AtomModel::Class(negated, chars) => chars.contains(b) != negated,
    }
}

pub proof fn lemma_take_push_contains(s: Seq<u8>, j: int, b: u8)
    requires
        0 <= j < s.len(),
    ensures
        s.take(j + 1).contains(b) == (s.take(j).contains(b) || s[j] == b),
{
    let t1 = s.take(j + 1);
    let t0 = s.take(j);
    assert(t1 =~= t0.push(s[j]));
    if t1.contains(b) {
        let k = choose|k: int| 0 <= k < t1.len() && t1[k] == b;
        if k < j {
            assert(t0[k] == b);
        }
    }
    if t0.contains(b) {
        let k = choose|k: int| 0 <= k < t0.len() && t0[k] == b;
        assert(t1[k] == b);
    }
    if s[j] == b {
        assert(t1[j] == b);
    }
}

/// Does this atom match this byte?
fn atom_matches(atom: &Atom, byte: u8) -> (r: bool)
    ensures
        r == atom_accepts(atom@, byte),
{
    match atom {
        Atom::Literal(c) => byte == *c,
        Atom::Dot => true,
        Atom::Class { negated, chars } => {
            let mut found = false;
            let mut j: usize = 0;
            while j < chars.len()
                invariant
                    j <= chars@.len(),
                    found == chars@.take(j as int).contains(byte),
                decreases chars@.len() - j,
            {
                proof {
                    lemma_take_push_contains(chars@, j as int, byte);
                }
                if chars[j] == byte {
                    found = true;
                }
                j += 1;
            }
            proof {
                assert(chars@.take(j as int) =~= chars@);
            }
            if *negated {
                !found
            } else {
                found
            }
        },
    }
}

// ── Bracket expressions ──────────────────────────────────────

/// The bytes `lo..=hi`, empty when `lo > hi`.
pub open spec fn byte_range(lo: u8, hi: u8) -> Seq<u8> {
    if lo <= hi {
        Seq::new((hi - lo + 1) as nat, |j: int| (lo + j) as u8)
    } else {
        Seq::empty()
    }
}

/// The members of a bracket body from `i` up to the closing `]` (or the end
/// of the pattern), with the index where the scan stopped. `a-b` with `b` not
/// the closing `]` is a range.
pub open spec fn bracket_members(p: Seq<u8>, i: int) -> (Seq<u8>, int)
    decreases p.len() - i,
{
    if i < 0 || i >= p.len() || p[i] == RBRACKET {
        (Seq::empty(), i)
    } else if i + 2 < p.len() && p[i + 1] == DASH && p[i + 2] != RBRACKET {
        let r = bracket_members(p, i + 3);
        (byte_range(p[i], p[i + 2]) + r.0, r.1)
    } else {
        let r = bracket_members(p, i + 1);
        (seq![p[i]] + r.0, r.1)
    }
}

/// A bracket expression starting at the `[` at `start`: the class atom and
/// the index just past the closing `]` (or the pattern's end). `^` first
/// negates; `]` first (after an optional `^`) is a member.
pub open spec fn bracket_spec(p: Seq<u8>, start: int) -> (AtomModel, int) {
    let i0 = start + 1;
    let negated = i0 < p.len() && p[i0] == CARET;
    let i1 = if negated { i0 + 1 } else { i0 };
    let close_first = i1 < p.len() && p[i1] == RBRACKET;
    let first: Seq<u8> = if close_first { seq![RBRACKET] } else { Seq::empty() };
    let i2 = if close_first { i1 + 1 } else { i1 };
    let r = bracket_members(p, i2);
    let end = if r.1 < p.len() { r.1 + 1 } else { r.1 };
    (AtomModel::Class(negated, first + r.0), end)
}

pub proof fn lemma_bracket_members_index(p: Seq<u8>, i: int)
    requires
        0 <= i,
    ensures
        i <= bracket_members(p, i).1,
        bracket_members(p, i).1 <= if i <= p.len() { p.len() as int } else { i },
        bracket_members(p, i).1 < p.len() ==> p[bracket_members(p, i).1] == RBRACKET,
    decreases p.len() - i,
{
    if i >= p.len() || p[i] == RBRACKET {
    } else if i + 2 < p.len() && p[i + 1] == DASH && p[i + 2] != RBRACKET {
        lemma_bracket_members_index(p, i + 3);
    } else {
        lemma_bracket_members_index(p, i + 1);
    }
}

pub proof fn lemma_bracket_spec_index(p: Seq<u8>, start: int)
    requires
        0 <= start < p.len(),
    ensures
        start < bracket_spec(p, start).1 <= p.len(),
{
    let i0 = start + 1;
    let negated = i0 < p.len() && p[i0] == CARET;
    let i1 = if negated { i0 + 1 } else { i0 };
    let close_first = i1 < p.len() && p[i1] == RBRACKET;
    let i2 = if close_first { i1 + 1 } else { i1 };
    lemma_bracket_members_index(p, i2);
}

/// Parse a bracket expression starting at the `[` at position `start`.
fn parse_bracket(pattern: &[u8], start: usize) -> (r: (Atom, usize))
    requires
        start < pattern.len(),
    ensures
        (r.0@, r.1 as int) == bracket_spec(pattern@, start as int),
{
    let ghost p = pattern@;
    let mut i = start + 1;
    let negated = if i < pattern.len() && pattern[i] == CARET {
        i += 1;
        true
    } else {
        false
    };
    let mut chars: Vec<u8> = Vec::new();
    if i < pattern.len() && pattern[i] == RBRACKET {
        chars.push(RBRACKET);
        i += 1;
    }
    let ghost i2 = i as int;
    let ghost first = chars@;
    proof {
        lemma_bracket_members_index(p, i2);
    }
    while i < pattern.len() && pattern[i] != RBRACKET
        invariant
            i2 <= i <= pattern@.len(),
            p == pattern@,
            chars@ + bracket_members(p, i as int).0 == first + bracket_members(p, i2).0,
            bracket_members(p, i as int).1 == bracket_members(p, i2).1,
        decreases pattern@.len() - i,
    {
        if pattern.len() - i > 2 && pattern[i + 1] == DASH && pattern[i + 2] != RBRACKET {
            let lo = pattern[i];
            let hi = pattern[i + 2];
            let ghost before = chars@;
            if lo <= hi {
                let mut c: u16 = lo as u16;
                while c <= hi as u16
                    invariant
                        lo <= hi,
                        lo as u16 <= c <= hi as u16 + 1,
                        chars@ == before + byte_range(lo, hi).take(c - lo),
                    decreases hi as u16 + 1 - c,
                {
                    proof {
                        assert(byte_range(lo, hi).take(c - lo + 1) =~= byte_range(lo, hi).take(
                            c - lo,
                        ).push(c as u8));
                    }
                    chars.push(c as u8);
                    c += 1;
                }
                proof {
                    assert(byte_range(lo, hi).take(c - lo) =~= byte_range(lo, hi));
                }
            }
            proof {
                let r = bracket_members(p, i + 3);
                assert(chars@ + r.0 =~= before + (byte_range(lo, hi) + r.0));
            }
            i += 3;
        } else {
            let ghost before = chars@;
            chars.push(pattern[i]);
            proof {
                let r = bracket_members(p, i + 1);
                assert(chars@ + r.0 =~= before + (seq![p[i as int]] + r.0));
            }
            i += 1;
        }
    }
    proof {
        assert(chars@ =~= chars@ + bracket_members(p, i as int).0);
    }
    if i < pattern.len() {
        i += 1;
    }
    (Atom::Class { negated, chars }, i)
}

/// One atom at `i`: `.` is the wildcard, `[` opens a bracket expression,
/// anything else is a literal byte. Returns the atom and the index past it.
pub open spec fn atom_spec(p: Seq<u8>, i: int) -> (AtomModel, int) {
    if p[i] == DOT {
        (AtomModel::Dot, i + 1)
    } else if p[i] == LBRACKET {
        bracket_spec(p, i)
    } else {
        (AtomModel::Literal(p[i]), i + 1)
    }
}

/// Parse one atom starting at position `i` in the pattern.
fn parse_atom(pattern: &[u8], i: usize) -> (r: (Atom, usize))
    requires
        i < pattern@.len(),
    ensures
        (r.0@, r.1 as int) == atom_spec(pattern@, i as int),
        i < r.1 <= pattern@.len(),
{
    proof {
        lemma_bracket_spec_index(pattern@, i as int);
    }
    match pattern[i] {
        DOT => (Atom::Dot, i + 1),
        LBRACKET => parse_bracket(pattern, i),
        c => (Atom::Literal(c), i + 1),
    }
}

// ── Compiler ─────────────────────────────────────────────────

pub open spec fn is_octal_digit(b: u8) -> bool {
    DIGIT_0 <= b <= DIGIT_7
}

/// The byte named by the escape `\c` at `i` (so `p[i]` is the backslash):
/// `\0NN` with two octal digits is the byte `0NN` in octal, any other `\c` is
/// the literal `c`. Returns the byte and the index past the escape.
pub open spec fn escaped_byte(p: Seq<u8>, i: int) -> (u8, int) {
    if p[i + 1] == DIGIT_0 && i + 3 < p.len() && is_octal_digit(p[i + 2]) && is_octal_digit(p[i + 3]) {
        (((p[i + 2] - DIGIT_0) * 8 + (p[i + 3] - DIGIT_0)) as u8, i + 4)
    } else {
        (p[i + 1], i + 2)
    }
}

/// The elements compiled from `p[i..]`, where `g` groups have been opened so
/// far and `stack` holds the numbers of the groups still open. `$` anchors
/// only as the last byte; `\(` and `\)` open and close groups (a `\)` with no
/// open group is dropped); `\1`-`\9` are backreferences; an atom followed by
/// `*` is starred.
pub open spec fn compile_from(p: Seq<u8>, i: int, g: nat, stack: Seq<nat>) -> Seq<ElemModel>
    decreases p.len() - i,
{
    if i < 0 || i >= p.len() {
        Seq::empty()
    } else if p[i] == DOLLAR && i + 1 == p.len() {
        seq![ElemModel::Dollar]
    } else if p[i] == BACKSLASH && i + 1 < p.len() {
        let c = p[i + 1];
        if c == LPAREN {
            seq![ElemModel::GroupStart(g + 1)] + compile_from(p, i + 2, g + 1, stack.push(g + 1))
        } else if c == RPAREN {
            if stack.len() > 0 {
                seq![ElemModel::GroupEnd(stack.last())] + compile_from(
                    p,
                    i + 2,
                    g,
                    stack.drop_last(),
                )
            } else {
                compile_from(p, i + 2, g, stack)
            }
        } else if DIGIT_1 <= c <= DIGIT_9 {
            seq![ElemModel::BackRef((c - DIGIT_0) as nat)] + compile_from(p, i + 2, g, stack)
        } else {
            let (b, j) = escaped_byte(p, i);
            if j < p.len() && p[j] == STAR {
                seq![ElemModel::Star(AtomModel::Literal(b))] + compile_from(p, j + 1, g, stack)
            } else {
                seq![ElemModel::One(AtomModel::Literal(b))] + compile_from(p, j, g, stack)
            }
        }
    } else {
        proof {
            lemma_bracket_spec_index(p, i);
        }
        let (a, j) = atom_spec(p, i);
        if j < p.len() && p[j] == STAR {
            seq![ElemModel::Star(a)] + compile_from(p, j + 1, g, stack)
        } else {
            seq![ElemModel::One(a)] + compile_from(p, j, g, stack)
        }
    }
}

/// The compiled form of a whole pattern: `^` anchors only as its first byte.
pub open spec fn compile_spec(p: Seq<u8>) -> Seq<ElemModel> {
    if p.len() > 0 && p[0] == CARET {
        seq![ElemModel::Caret] + compile_from(p, 1, 0, Seq::empty())
    } else {
        compile_from(p, 0, 0, Seq::empty())
    }
}

pub open spec fn stack_model(s: Seq<usize>) -> Seq<nat> {
    s.map_values(|x: usize| x as nat)
}

/// A compiled BRE pattern, ready for matching.
pub struct Regex {
    elements: Vec<Element>,
}

impl View for Regex {
    type V = Seq<ElemModel>;

    closed spec fn view(&self) -> Seq<ElemModel> {
        elems_model(self.elements@)
    }
}

impl Regex {
    #[verifier::type_invariant]
    spec fn inv(self) -> bool {
        groups_ordered(elems_model(self.elements@))
    }
}

impl Regex {
    /// Compile a BRE pattern from raw bytes. Compiling never fails: bytes
    /// that are not syntax are literals.
    #[verifier::rlimit(40)]
    pub fn compile(pattern: &[u8]) -> (r: Regex)
        ensures
            r@ == compile_spec(pattern@),
    {
        let ghost p = pattern@;
        let mut elements: Vec<Element> = Vec::new();
        let mut i: usize = 0;
        let mut group_num: usize = 0;
        let mut group_stack: Vec<usize> = Vec::new();

        if i < pattern.len() && pattern[i] == CARET {
            elements.push(Element::Caret);
            i += 1;
        }
        proof {
            assert(stack_model(group_stack@) =~= Seq::<nat>::empty());
            assert(elems_model(elements@) + compile_from(p, i as int, 0, stack_model(group_stack@))
                =~= compile_spec(p));
        }
        while i < pattern.len()
            invariant
                p == pattern@,
                i <= pattern@.len(),
                group_num <= i,
                elems_model(elements@) + compile_from(
                    p,
                    i as int,
                    group_num as nat,
                    stack_model(group_stack@),
                ) == compile_spec(p),
            decreases pattern@.len() - i,
        {
            let ghost before = elems_model(elements@);
            let ghost st = stack_model(group_stack@);
            if pattern[i] == DOLLAR && i + 1 == pattern.len() {
                elements.push(Element::Dollar);
                proof {
                    assert(elems_model(elements@) =~= before + seq![ElemModel::Dollar]);
                    assert(elems_model(elements@) + compile_from(p, i + 1, group_num as nat, st)
                        =~= elems_model(elements@));
                }
                i += 1;
                continue;
            }
            if pattern[i] == BACKSLASH && i + 1 < pattern.len() {
                let c = pattern[i + 1];
                if c == LPAREN {
                    group_num += 1;
                    group_stack.push(group_num);
                    elements.push(Element::GroupStart(group_num));
                    proof {
                        assert(stack_model(group_stack@) =~= st.push(group_num as nat));
                        assert(elems_model(elements@) =~= before + seq![
                            ElemModel::GroupStart(group_num as nat),
                        ]);
                    }
                    i += 2;
                    continue;
                } else if c == RPAREN {
                    if group_stack.len() > 0 {
                        let n = group_stack.pop().unwrap();
                        elements.push(Element::GroupEnd(n));
                        proof {
                            assert(stack_model(group_stack@) =~= st.drop_last());
                            assert(elems_model(elements@) =~= before + seq![
                                ElemModel::GroupEnd(st.last()),
                            ]);
                        }
                    }
                    i += 2;
                    continue;
                } else if DIGIT_1 <= c && c <= DIGIT_9 {
                    let n = (c - DIGIT_0) as usize;
                    elements.push(Element::BackRef(n));
                    proof {
                        assert(elems_model(elements@) =~= before + seq![ElemModel::BackRef(n as nat)]);
                    }
                    i += 2;
                    continue;
                } else {
                    let mut b = c;
                    let mut j = i + 2;
                    if c == DIGIT_0 && pattern.len() - i > 3 && DIGIT_0 <= pattern[i + 2] && pattern[i
                        + 2] <= DIGIT_7 && DIGIT_0 <= pattern[i + 3] && pattern[i + 3] <= DIGIT_7 {
                        b = (pattern[i + 2] - DIGIT_0) * 8 + (pattern[i + 3] - DIGIT_0);
                        j = i + 4;
                    }
                    assert((b, j as int) == escaped_byte(p, i as int));
                    let atom = Atom::Literal(b);
                    if j < pattern.len() && pattern[j] == STAR {
                        elements.push(Element::Star(atom));
                        proof {
                            assert(elems_model(elements@) =~= before + seq![
                                ElemModel::Star(AtomModel::Literal(b)),
                            ]);
                        }
                        i = j + 1;
                    } else {
                        elements.push(Element::One(atom));
                        proof {
                            assert(elems_model(elements@) =~= before + seq![
                                ElemModel::One(AtomModel::Literal(b)),
                            ]);
                        }
                        i = j;
                    }
                    continue;
                }
            }
            let (atom, next) = parse_atom(pattern, i);
            let ghost am = atom@;
            if next < pattern.len() && pattern[next] == STAR {
                elements.push(Element::Star(atom));
                proof {
                    assert(elems_model(elements@) =~= before + seq![ElemModel::Star(am)]);
                }
                i = next + 1;
            } else {
                elements.push(Element::One(atom));
                proof {
                    assert(elems_model(elements@) =~= before + seq![ElemModel::One(am)]);
                }
                i = next;
            }
        }
        proof {
            assert(elems_model(elements@) =~= elems_model(elements@) + compile_from(
                p,
                i as int,
                group_num as nat,
                stack_model(group_stack@),
            ));
            lemma_compile_groups_ordered(p);
        }
        Regex { elements }
    }
}


// ── Group numbering ──────────────────────────────────────────

/// The group number carried by a group marker, -1 for other elements.
pub open spec fn marker_num(e: ElemModel) -> int {
    match e {
        ElemModel::GroupStart(n) => n as int,
        ElemModel::GroupEnd(n) => n as int,
        _ => -1,
    }
}

/// Every group marker comes before any group opened later carries a larger
/// number: groups are numbered in the order they open.
pub open spec fn numbered_in_order(e: Seq<ElemModel>) -> bool {
    forall|j1: int, j2: int|
        0 <= j1 < j2 < e.len() && (#[trigger] e[j2] is GroupStart) ==> marker_num(
            #[trigger] e[j1],
        ) < marker_num(e[j2])
}

/// No group is opened again after it has been closed.
pub open spec fn groups_ordered(e: Seq<ElemModel>) -> bool {
    forall|j1: int, j2: int|
        0 <= j1 < j2 < e.len() && (#[trigger] e[j1]) is GroupEnd && (#[trigger] e[j2]) is GroupStart
            ==> marker_num(e[j1]) != marker_num(e[j2])
}

pub proof fn lemma_compile_from_numbering(p: Seq<u8>, i: int, g: nat, stack: Seq<nat>)
    requires
        forall|s: int| 0 <= s < stack.len() ==> #[trigger] stack[s] <= g,
    ensures
        numbered_in_order(compile_from(p, i, g, stack)),
        forall|j: int|
            0 <= j < compile_from(p, i, g, stack).len() && (#[trigger] compile_from(
                p,
                i,
                g,
                stack,
            )[j]) is GroupStart ==> marker_num(compile_from(p, i, g, stack)[j]) > g,
    decreases p.len() - i,
{
    let o = compile_from(p, i, g, stack);
    if i < 0 || i >= p.len() {
    } else if p[i] == DOLLAR && i + 1 == p.len() {
    } else if p[i] == BACKSLASH && i + 1 < p.len() {
        let c = p[i + 1];
        if c == LPAREN {
            let st = stack.push(g + 1);
            assert forall|s: int| 0 <= s < st.len() implies #[trigger] st[s] <= g + 1 by {
                if s < stack.len() {
                    assert(st[s] == stack[s]);
                }
            }
            lemma_compile_from_numbering(p, i + 2, g + 1, st);
            lemma_cons_numbering(ElemModel::GroupStart(g + 1), compile_from(p, i + 2, g + 1, st), g);
        } else if c == RPAREN {
            if stack.len() > 0 {
                let st = stack.drop_last();
                assert forall|s: int| 0 <= s < st.len() implies #[trigger] st[s] <= g by {
                    assert(st[s] == stack[s]);
                }
                lemma_compile_from_numbering(p, i + 2, g, st);
                lemma_cons_numbering(ElemModel::GroupEnd(stack.last()), compile_from(p, i + 2, g, st), g);
            } else {
                lemma_compile_from_numbering(p, i + 2, g, stack);
            }
        } else if DIGIT_1 <= c <= DIGIT_9 {
            lemma_compile_from_numbering(p, i + 2, g, stack);
            lemma_cons_numbering(ElemModel::BackRef((c - DIGIT_0) as nat), compile_from(p, i + 2, g, stack), g);
        } else {
            let (b, j) = escaped_byte(p, i);
            if j < p.len() && p[j] == STAR {
                lemma_compile_from_numbering(p, j + 1, g, stack);
                lemma_cons_numbering(ElemModel::Star(AtomModel::Literal(b)), compile_from(p, j + 1, g, stack), g);
            } else {
                lemma_compile_from_numbering(p, j, g, stack);
                lemma_cons_numbering(ElemModel::One(AtomModel::Literal(b)), compile_from(p, j, g, stack), g);
            }
        }
    } else {
        lemma_bracket_spec_index(p, i);
        let (a, j) = atom_spec(p, i);
        if j < p.len() && p[j] == STAR {
            lemma_compile_from_numbering(p, j + 1, g, stack);
            lemma_cons_numbering(ElemModel::Star(a), compile_from(p, j + 1, g, stack), g);
        } else {
            lemma_compile_from_numbering(p, j, g, stack);
            lemma_cons_numbering(ElemModel::One(a), compile_from(p, j, g, stack), g);
        }
    }
}

/// Putting a head with a number at most `g` (or a start `g + 1`) in front of
/// a sequence numbered in order whose starts all exceed `g` (or `g + 1`).
pub proof fn lemma_cons_numbering(h: ElemModel, r: Seq<ElemModel>, g: nat)
    requires
        numbered_in_order(r),
        h is GroupStart ==> marker_num(h) == g + 1,
        !(h is GroupStart) ==> marker_num(h) <= g,
        forall|j: int|
            0 <= j < r.len() && (#[trigger] r[j]) is GroupStart ==> marker_num(r[j]) > if h is GroupStart {
                g + 1int
            } else {
                g as int
            },
    ensures
        numbered_in_order(seq![h] + r),
        forall|j: int|
            0 <= j < (seq![h] + r).len() && (#[trigger] (seq![h] + r)[j]) is GroupStart
                ==> marker_num((seq![h] + r)[j]) > g,
{
    let o = seq![h] + r;
    assert forall|j1: int, j2: int|
        0 <= j1 < j2 < o.len() && (#[trigger] o[j2] is GroupStart) implies marker_num(
        #[trigger] o[j1],
    ) < marker_num(o[j2]) by {
        assert(o[j2] == r[j2 - 1]);
        if j1 > 0 {
            assert(o[j1] == r[j1 - 1]);
        }
    }
    assert forall|j: int| 0 <= j < o.len() && (#[trigger] o[j]) is GroupStart implies marker_num(o[j])
        > g by {
        if j > 0 {
            assert(o[j] == r[j - 1]);
        }
    }
}

pub proof fn lemma_compile_groups_ordered(p: Seq<u8>)
    ensures
        groups_ordered(compile_spec(p)),
{
    lemma_compile_from_numbering(p, 0, 0, Seq::empty());
    lemma_compile_from_numbering(p, 1, 0, Seq::empty());
    let e = compile_spec(p);
    if p.len() > 0 && p[0] == CARET {
        let r = compile_from(p, 1, 0, Seq::empty());
        lemma_cons_numbering(ElemModel::Caret, r, 0);
    }
    assert(numbered_in_order(e));
    assert forall|j1: int, j2: int|
        0 <= j1 < j2 < e.len() && (#[trigger] e[j1]) is GroupEnd && (#[trigger] e[j2]) is GroupStart
        implies marker_num(e[j1]) != marker_num(e[j2]) by {
        assert(marker_num(e[j1]) < marker_num(e[j2]));
    }
}


// ── Matcher semantics ────────────────────────────────────────

/// The outcome of matching the elements from index `k` on: the number of
/// bytes consumed and the capture state, no match, or a group number outside
/// 1 to 9 was reached.
pub enum Outcome {
    Hit(int, CapsModel),
    Miss,
    Unsupported,
}

pub open spec fn caps_start(c: CapsModel, i: int, pos: int) -> CapsModel {
    CapsModel { start: c.start.update(i, pos), ..c }
}

pub open spec fn caps_close(c: CapsModel, i: int, pos: int) -> CapsModel {
    CapsModel { end: c.end.update(i, pos), valid: c.valid.update(i, true), ..c }
}

pub open spec fn initial_caps() -> CapsModel {
    CapsModel {
        start: Seq::new(9, |i: int| 0int),
        end: Seq::new(9, |i: int| 0int),
        valid: Seq::new(9, |i: int| false),
    }
}

pub open spec fn shift(o: Outcome, n: int) -> Outcome {
    match o {
        Outcome::Hit(len, c) => Outcome::Hit(len + n, c),
        other => other,
    }
}

/// Match the elements `e[k..]` against the text `t` from offset `pos`, with
/// capture state `caps`.
pub open spec fn here(e: Seq<ElemModel>, k: int, t: Seq<u8>, pos: int, caps: CapsModel) -> Outcome
    decreases e.len() - k, 1int, 0int,
{
    if k < 0 || k >= e.len() {
        Outcome::Hit(0, caps)
    } else {
        match e[k] {
            ElemModel::Dollar => if pos >= t.len() {
                Outcome::Hit(0, caps)
            } else {
                Outcome::Miss
            },
            ElemModel::Caret => Outcome::Miss,
            ElemModel::GroupStart(n) => if 1 <= n <= 9 {
                here(e, k + 1, t, pos, caps_start(caps, n - 1, pos))
            } else {
                Outcome::Unsupported
            },
            ElemModel::GroupEnd(n) => if 1 <= n <= 9 {
                here(e, k + 1, t, pos, caps_close(caps, n - 1, pos))
            } else {
                Outcome::Unsupported
            },
            ElemModel::BackRef(n) => if !(1 <= n <= 9) {
                Outcome::Unsupported
            } else if !caps.valid[n - 1] {
                Outcome::Miss
            } else {
                let cap = t.subrange(caps.start[n - 1], caps.end[n - 1]);
                if pos + cap.len() <= t.len() && t.subrange(pos, pos + cap.len()) == cap {
                    shift(here(e, k + 1, t, pos + cap.len(), caps), cap.len() as int)
                } else {
                    Outcome::Miss
                }
            },
            ElemModel::Star(a) => star(e, k, a, t, pos, caps, 0),
            ElemModel::One(a) => if pos < t.len() && atom_accepts(a, t[pos]) {
                shift(here(e, k + 1, t, pos + 1, caps), 1)
            } else {
                Outcome::Miss
            },
        }
    }
}

/// A starred atom at `e[k]` after `n` repetitions: the rest of the pattern
/// is tried first, and one more repetition only if that fails.
pub open spec fn star(
    e: Seq<ElemModel>,
    k: int,
    a: AtomModel,
    t: Seq<u8>,
    pos: int,
    caps: CapsModel,
    n: int,
) -> Outcome
    decreases e.len() - k, 0int, t.len() - (pos + n),
{
    if k < 0 || k >= e.len() || n < 0 {
        Outcome::Miss
    } else {
        match here(e, k + 1, t, pos + n, caps) {
            Outcome::Hit(len, c) => Outcome::Hit(n + len, c),
            Outcome::Unsupported => Outcome::Unsupported,
            Outcome::Miss => if pos + n >= t.len() || !atom_accepts(a, t[pos + n]) {
                Outcome::Miss
            } else {
                star(e, k, a, t, pos, caps, n + 1)
            },
        }
    }
}

/// The result of a search: the match's start, end and captures, no match, or
/// a group number outside 1 to 9 was reached.
pub enum SearchModel {
    Found(int, int, CapsModel),
    NotFound,
    Unsupported,
}

pub open spec fn anchored(e: Seq<ElemModel>) -> bool {
    e.len() > 0 && e[0] is Caret
}

/// Where matching starts in the element list: past a leading `^`.
pub open spec fn first_elem(e: Seq<ElemModel>) -> int {
    if anchored(e) {
        1
    } else {
        0
    }
}

/// Search from `offset` on: the first offset where the pattern matches.
pub open spec fn search_from(e: Seq<ElemModel>, t: Seq<u8>, offset: int) -> SearchModel
    decreases t.len() - offset,
{
    match here(e, first_elem(e), t, offset, initial_caps()) {
        Outcome::Hit(len, c) => SearchModel::Found(offset, offset + len, c),
        Outcome::Unsupported => SearchModel::Unsupported,
        Outcome::Miss => if anchored(e) || offset >= t.len() {
            SearchModel::NotFound
        } else {
            search_from(e, t, offset + 1)
        },
    }
}

/// The leftmost match of the pattern `e` in `t`.
pub open spec fn search(e: Seq<ElemModel>, t: Seq<u8>) -> SearchModel {
    search_from(e, t, 0)
}

/// The leftmost match of the pattern `e` in the text `t` that starts at
/// offset `from` or later. A pattern that begins with `^` only matches at the
/// start of `t`, never at a later offset.
pub open spec fn search_at(e: Seq<ElemModel>, t: Seq<u8>, from: int) -> SearchModel {
    if anchored(e) && from > 0 {
        SearchModel::NotFound
    } else {
        search_from(e, t, from)
    }
}

/// Capture state that the matcher can carry from index `k` at offset `pos`:
/// every start is at most `pos`, every closed group has `start <= end <= pos`
/// and is not opened again in `e[k..]`.
pub open spec fn caps_ok(e: Seq<ElemModel>, k: int, c: CapsModel, pos: int) -> bool {
    &&& c.start.len() == 9
    &&& c.end.len() == 9
    &&& c.valid.len() == 9
    &&& forall|i: int| 0 <= i < 9 ==> 0 <= #[trigger] c.start[i] <= pos
    &&& forall|i: int|
        0 <= i < 9 && #[trigger] c.valid[i] ==> c.start[i] <= c.end[i] <= pos && forall|j: int|
            k <= j < e.len() ==> !(#[trigger] e[j] is GroupStart && marker_num(e[j]) == i + 1)
}

// ── Matcher ──────────────────────────────────────────────────

/// Capture state for up to 9 groups, threaded through matching by value so
/// that failed branches discard partial captures.
#[derive(Clone, Copy)]
pub struct Caps {
    start: [usize; 9],
    end: [usize; 9],
    valid: [bool; 9],
}

impl View for Caps {
    type V = CapsModel;

    closed spec fn view(&self) -> CapsModel {
        CapsModel {
            start: self.start@.map_values(|x: usize| x as int),
            end: self.end@.map_values(|x: usize| x as int),
            valid: self.valid@,
        }
    }
}

impl Caps {
    fn new() -> (c: Caps)
        ensures
            c@ == initial_caps(),
    {
        let c = Caps { start: [0; 9], end: [0; 9], valid: [false; 9] };
        proof {
            assert(c@.start =~= initial_caps().start);
            assert(c@.end =~= initial_caps().end);
            assert(c@.valid =~= initial_caps().valid);
        }
        c
    }
}

enum Attempt {
    Hit(usize, Caps),
    Miss,
    Unsupported,
}

impl View for Attempt {
    type V = Outcome;

    closed spec fn view(&self) -> Outcome {
        match self {
            Attempt::Hit(len, c) => Outcome::Hit(*len as int, c@),
            Attempt::Miss => Outcome::Miss,
            Attempt::Unsupported => Outcome::Unsupported,
        }
    }
}

/// Whether `t[a..a + n]` and `t[b..b + n]` hold the same bytes.
fn same_bytes(t: &[u8], a: usize, b: usize, n: usize) -> (r: bool)
    requires
        a + n <= t.len(),
        b + n <= t.len(),
    ensures
        r == (t@.subrange(a as int, a + n) == t@.subrange(b as int, b + n)),
{
    let mut i: usize = 0;
    while i < n
        invariant
            i <= n,
            a + n <= t.len(),
            b + n <= t.len(),
            t@.subrange(a as int, a + i) == t@.subrange(b as int, b + i),
        decreases n - i,
    {
        if t[a + i] != t[b + i] {
            proof {
                assert(t@.subrange(a as int, a + n)[i as int] != t@.subrange(b as int, b + n)[i as int]);
            }
            return false;
        }
        proof {
            assert(t@.subrange(a as int, a + i + 1) =~= t@.subrange(a as int, a + i).push(t@[a + i]));
            assert(t@.subrange(b as int, b + i + 1) =~= t@.subrange(b as int, b + i).push(t@[b + i]));
        }
        i += 1;
    }
    true
}


impl Regex {
    /// Match `self.elements[k..]` at offset `pos` of `text`.
    fn match_here(&self, k: usize, text: &[u8], pos: usize, caps: Caps) -> (r: Attempt)
        requires
            k <= self@.len(),
            pos <= text@.len(),
            groups_ordered(self@),
            caps_ok(self@, k as int, caps@, pos as int),
        ensures
            r@ == here(self@, k as int, text@, pos as int, caps@),
            r matches Attempt::Hit(len, c) ==> pos + len <= text@.len() && caps_ok(
                self@,
                self@.len() as int,
                c@,
                pos + len,
            ),
        decreases self@.len() - k, 1int, 0int,
    {
        if k >= self.elements.len() {
            return Attempt::Hit(0, caps);
        }
        let ghost e = self@;
        proof {
            assert(e[k as int] == self.elements@[k as int]@);
        }
        match &self.elements[k] {
            Element::Dollar => {
                if pos >= text.len() {
                    Attempt::Hit(0, caps)
                } else {
                    Attempt::Miss
                }
            },
            Element::Caret => Attempt::Miss,
            Element::GroupStart(n) => {
                let n = *n;
                if n >= 1 && n <= 9 {
                    let mut c = caps;
                    c.start[n - 1] = pos;
                    proof {
                        assert(c@.start =~= caps@.start.update(n - 1, pos as int));
                        assert(c@.end =~= caps@.end);
                        assert(c@ == caps_start(caps@, n - 1, pos as int));
                        assert(!caps@.valid[n - 1]);
                    }
                    self.match_here(k + 1, text, pos, c)
                } else {
                    Attempt::Unsupported
                }
            },
            Element::GroupEnd(n) => {
                let n = *n;
                if n >= 1 && n <= 9 {
                    let mut c = caps;
                    c.end[n - 1] = pos;
                    c.valid[n - 1] = true;
                    proof {
                        assert(c@.start =~= caps@.start);
                        assert(c@.end =~= caps@.end.update(n - 1, pos as int));
                        assert(c@.valid =~= caps@.valid.update(n - 1, true));
                        assert(c@ == caps_close(caps@, n - 1, pos as int));
                        assert forall|i: int| 0 <= i < 9 && #[trigger] c@.valid[i] implies c@.start[i]
                            <= c@.end[i] <= pos && forall|j: int|
                            k + 1 <= j < e.len() ==> !(#[trigger] e[j] is GroupStart && marker_num(e[j])
                                == i + 1) by {
                            if i == n - 1 {
                                assert forall|j: int| k + 1 <= j < e.len() implies !(
                                #[trigger] e[j] is GroupStart && marker_num(e[j]) == i + 1) by {
                                    if e[j] is GroupStart {
                                        assert(marker_num(e[k as int]) != marker_num(e[j]));
                                    }
                                }
                            }
                        }
                    }
                    self.match_here(k + 1, text, pos, c)
                } else {
                    Attempt::Unsupported
                }
            },
            Element::BackRef(n) => {
                let n = *n;
                if !(n >= 1 && n <= 9) {
                    return Attempt::Unsupported;
                }
                if !caps.valid[n - 1] {
                    return Attempt::Miss;
                }
                let s = caps.start[n - 1];
                let f = caps.end[n - 1];
                let clen = f - s;
                proof {
                    assert(caps@.start[n - 1] == s as int);
                    assert(caps@.end[n - 1] == f as int);
                    assert(caps@.valid[n - 1]);
                    assert(t_sub_len(text@, s as int, f as int) == clen);
                }
                if clen <= text.len() - pos && same_bytes(text, pos, s, clen) {
                    proof {
                        assert(text@.subrange(s as int, s + clen) == text@.subrange(
                            s as int,
                            f as int,
                        ));
                    }
                    match self.match_here(k + 1, text, pos + clen, caps) {
                        Attempt::Hit(len, c) => Attempt::Hit(len + clen, c),
                        Attempt::Miss => Attempt::Miss,
                        Attempt::Unsupported => Attempt::Unsupported,
                    }
                } else {
                    Attempt::Miss
                }
            },
            Element::Star(atom) => self.match_star(k, atom, text, pos, caps),
            Element::One(atom) => {
                if pos < text.len() && atom_matches(atom, text[pos]) {
                    match self.match_here(k + 1, text, pos + 1, caps) {
                        Attempt::Hit(len, c) => Attempt::Hit(len + 1, c),
                        Attempt::Miss => Attempt::Miss,
                        Attempt::Unsupported => Attempt::Unsupported,
                    }
                } else {
                    Attempt::Miss
                }
            },
        }
    }

    /// Try zero, then one, then two, ... repetitions of the starred `atom` at
    /// `self.elements[k]`, matching the rest of the pattern after each count.
    fn match_star(&self, k: usize, atom: &Atom, text: &[u8], pos: usize, caps: Caps) -> (r: Attempt)
        requires
            k < self@.len(),
            pos <= text@.len(),
            groups_ordered(self@),
            caps_ok(self@, k as int, caps@, pos as int),
        ensures
            r@ == star(self@, k as int, atom@, text@, pos as int, caps@, 0),
            r matches Attempt::Hit(len, c) ==> pos + len <= text@.len() && caps_ok(
                self@,
                self@.len() as int,
                c@,
                pos + len,
            ),
        decreases self@.len() - k, 0int, 0int,
    {
        let mut consumed: usize = 0;
        loop
            invariant
                k < self@.len(),
                self@.len() == self.elements.len(),
                pos + consumed <= text.len(),
                groups_ordered(self@),
                caps_ok(self@, k as int, caps@, pos as int),
                star(self@, k as int, atom@, text@, pos as int, caps@, 0) == star(
                    self@,
                    k as int,
                    atom@,
                    text@,
                    pos as int,
                    caps@,
                    consumed as int,
                ),
            decreases text@.len() - pos - consumed,
        {
            match self.match_here(k + 1, text, pos + consumed, caps) {
                Attempt::Hit(len, c) => {
                    return Attempt::Hit(consumed + len, c);
                },
                Attempt::Unsupported => {
                    return Attempt::Unsupported;
                },
                Attempt::Miss => {},
            }
            if pos + consumed >= text.len() {
                return Attempt::Miss;
            }
            if !atom_matches(atom, text[pos + consumed]) {
                return Attempt::Miss;
            }
            consumed += 1;
        }
    }
}

pub open spec fn t_sub_len(t: Seq<u8>, s: int, f: int) -> int {
    t.subrange(s, f).len() as int
}


// ── The group limit ──────────────────────────────────────────

/// How many groups the elements open.
pub open spec fn group_starts(e: Seq<ElemModel>) -> nat
    decreases e.len(),
{
    if e.len() == 0 {
        0
    } else {
        (if e[0] is GroupStart { 1nat } else { 0nat }) + group_starts(e.drop_first())
    }
}

/// The group numbers an element of `compile_from(p, i, g, ..)` can carry when
/// that call opens groups up to `m`.
pub open spec fn numbered_within(x: ElemModel, g: nat, m: nat) -> bool {
    match x {
        ElemModel::GroupStart(n) => g < n <= m,
        ElemModel::GroupEnd(n) => 1 <= n <= m,
        ElemModel::BackRef(n) => 1 <= n <= 9,
        _ => true,
    }
}

/// Every group number in the elements lies in 1 to 9.
pub open spec fn groups_in_range(e: Seq<ElemModel>) -> bool {
    forall|j: int|
        0 <= j < e.len() ==> match #[trigger] e[j] {
            ElemModel::GroupStart(n) => 1 <= n <= 9,
            ElemModel::GroupEnd(n) => 1 <= n <= 9,
            ElemModel::BackRef(n) => 1 <= n <= 9,
            _ => true,
        }
}

proof fn lemma_prepend_starts(x: ElemModel, r: Seq<ElemModel>)
    ensures
        group_starts(seq![x] + r) == (if x is GroupStart { 1nat } else { 0nat }) + group_starts(r),
{
    assert((seq![x] + r).drop_first() =~= r);
}

/// Groups are numbered in the order they open, from `g + 1`; a closing
/// `\)` closes an open group; back-references name groups 1 to 9.
pub proof fn lemma_compile_from_numbers(p: Seq<u8>, i: int, g: nat, stack: Seq<nat>)
    requires
        forall|j: int| 0 <= j < stack.len() ==> 1 <= #[trigger] stack[j] <= g,
    ensures
        forall|j: int|
            0 <= j < compile_from(p, i, g, stack).len() ==> numbered_within(
                #[trigger] compile_from(p, i, g, stack)[j],
                g,
                g + group_starts(compile_from(p, i, g, stack)),
            ),
    decreases p.len() - i,
{
    let r = compile_from(p, i, g, stack);
    if i < 0 || i >= p.len() {
    } else if p[i] == DOLLAR && i + 1 == p.len() {
    } else if p[i] == BACKSLASH && i + 1 < p.len() {
        let c = p[i + 1];
        if c == LPAREN {
            let st = stack.push(g + 1);
            assert forall|j: int| 0 <= j < st.len() implies 1 <= #[trigger] st[j] <= g + 1 by {
                if j < stack.len() {
                    assert(st[j] == stack[j]);
                }
            }
            lemma_compile_from_numbers(p, i + 2, g + 1, st);
            let rest = compile_from(p, i + 2, g + 1, st);
            lemma_prepend_starts(ElemModel::GroupStart(g + 1), rest);
            assert forall|j: int| 0 <= j < r.len() implies numbered_within(
                #[trigger] r[j],
                g,
                g + group_starts(r),
            ) by {
                if j > 0 {
                    assert(r[j] == rest[j - 1]);
                }
            }
        } else if c == RPAREN {
            if stack.len() > 0 {
                lemma_compile_from_numbers(p, i + 2, g, stack.drop_last());
                let rest = compile_from(p, i + 2, g, stack.drop_last());
                lemma_prepend_starts(ElemModel::GroupEnd(stack.last()), rest);
                assert forall|j: int| 0 <= j < r.len() implies numbered_within(
                    #[trigger] r[j],
                    g,
                    g + group_starts(r),
                ) by {
                    if j > 0 {
                        assert(r[j] == rest[j - 1]);
                    } else {
                        assert(stack[stack.len() - 1] == stack.last());
                    }
                }
            } else {
                lemma_compile_from_numbers(p, i + 2, g, stack);
            }
        } else if DIGIT_1 <= c <= DIGIT_9 {
            lemma_compile_from_numbers(p, i + 2, g, stack);
            let rest = compile_from(p, i + 2, g, stack);
            let x = ElemModel::BackRef((c - DIGIT_0) as nat);
            lemma_prepend_starts(x, rest);
            assert forall|j: int| 0 <= j < r.len() implies numbered_within(
                #[trigger] r[j],
                g,
                g + group_starts(r),
            ) by {
                if j > 0 {
                    assert(r[j] == rest[j - 1]);
                }
            }
        } else {
            let (b, j0) = escaped_byte(p, i);
            let nx = if j0 < p.len() && p[j0] == STAR { j0 + 1 } else { j0 };
            let x = if j0 < p.len() && p[j0] == STAR {
                ElemModel::Star(AtomModel::Literal(b))
            } else {
                ElemModel::One(AtomModel::Literal(b))
            };
            lemma_compile_from_numbers(p, nx, g, stack);
            let rest = compile_from(p, nx, g, stack);
            assert(r == seq![x] + rest);
            lemma_prepend_starts(x, rest);
            assert forall|j: int| 0 <= j < r.len() implies numbered_within(
                #[trigger] r[j],
                g,
                g + group_starts(r),
            ) by {
                if j > 0 {
                    assert(r[j] == rest[j - 1]);
                }
            }
        }
    } else {
        lemma_bracket_spec_index(p, i);
        let (a, j0) = atom_spec(p, i);
        let nx = if j0 < p.len() && p[j0] == STAR { j0 + 1 } else { j0 };
        let x = if j0 < p.len() && p[j0] == STAR {
            ElemModel::Star(a)
        } else {
            ElemModel::One(a)
        };
        lemma_compile_from_numbers(p, nx, g, stack);
        let rest = compile_from(p, nx, g, stack);
        assert(r == seq![x] + rest);
        lemma_prepend_starts(x, rest);
        assert forall|j: int| 0 <= j < r.len() implies numbered_within(
            #[trigger] r[j],
            g,
            g + group_starts(r),
        ) by {
            if j > 0 {
                assert(r[j] == rest[j - 1]);
            }
        }
    }
}

/// A compiled pattern that opens at most nine groups numbers every group
/// and back-reference within 1 to 9.
pub proof fn lemma_compile_groups_in_range(p: Seq<u8>)
    requires
        group_starts(compile_spec(p)) <= 9,
    ensures
        groups_in_range(compile_spec(p)),
{
    let e = compile_spec(p);
    if p.len() > 0 && p[0] == CARET {
        let rest = compile_from(p, 1, 0, Seq::empty());
        lemma_compile_from_numbers(p, 1, 0, Seq::empty());
        lemma_prepend_starts(ElemModel::Caret, rest);
        assert forall|j: int| 0 <= j < e.len() implies match #[trigger] e[j] {
            ElemModel::GroupStart(n) => 1 <= n <= 9,
            ElemModel::GroupEnd(n) => 1 <= n <= 9,
            ElemModel::BackRef(n) => 1 <= n <= 9,
            _ => true,
        } by {
            if j > 0 {
                assert(e[j] == rest[j - 1]);
                assert(numbered_within(rest[j - 1], 0, group_starts(rest)));
            }
        }
    } else {
        lemma_compile_from_numbers(p, 0, 0, Seq::empty());
        assert forall|j: int| 0 <= j < e.len() implies match #[trigger] e[j] {
            ElemModel::GroupStart(n) => 1 <= n <= 9,
            ElemModel::GroupEnd(n) => 1 <= n <= 9,
            ElemModel::BackRef(n) => 1 <= n <= 9,
            _ => true,
        } by {
            assert(numbered_within(e[j], 0, group_starts(e)));
        }
    }
}

/// With every group number in 1 to 9, matching never reports the limit.
pub proof fn lemma_here_supported(e: Seq<ElemModel>, k: int, t: Seq<u8>, pos: int, caps: CapsModel)
    requires
        groups_in_range(e),
    ensures
        !(here(e, k, t, pos, caps) is Unsupported),
    decreases e.len() - k, 1int, 0int,
{
    if k < 0 || k >= e.len() {
    } else {
        let x = e[k];
        match x {
            ElemModel::GroupStart(n) => {
                lemma_here_supported(e, k + 1, t, pos, caps_start(caps, n - 1, pos));
            },
            ElemModel::GroupEnd(n) => {
                lemma_here_supported(e, k + 1, t, pos, caps_close(caps, n - 1, pos));
            },
            ElemModel::BackRef(n) => {
                if caps.valid[n - 1] {
                    let cap = t.subrange(caps.start[n - 1], caps.end[n - 1]);
                    lemma_here_supported(e, k + 1, t, pos + cap.len(), caps);
                }
            },
            ElemModel::Star(a) => {
                lemma_star_supported(e, k, a, t, pos, caps, 0);
            },
            ElemModel::One(a) => {
                lemma_here_supported(e, k + 1, t, pos + 1, caps);
            },
            _ => {},
        }
    }
}

pub proof fn lemma_star_supported(
    e: Seq<ElemModel>,
    k: int,
    a: AtomModel,
    t: Seq<u8>,
    pos: int,
    caps: CapsModel,
    n: int,
)
    requires
        groups_in_range(e),
    ensures
        !(star(e, k, a, t, pos, caps, n) is Unsupported),
    decreases e.len() - k, 0int, t.len() - (pos + n),
{
    if k < 0 || k >= e.len() || n < 0 {
    } else {
        lemma_here_supported(e, k + 1, t, pos + n, caps);
        if here(e, k + 1, t, pos + n, caps) is Miss && !(pos + n >= t.len() || !atom_accepts(
            a,
            t[pos + n],
        )) {
            lemma_star_supported(e, k, a, t, pos, caps, n + 1);
        }
    }
}

/// With every group number in 1 to 9, a search never reports the limit.
pub proof fn lemma_search_from_supported(e: Seq<ElemModel>, t: Seq<u8>, offset: int)
    requires
        groups_in_range(e),
    ensures
        !(search_from(e, t, offset) is Unsupported),
    decreases t.len() - offset,
{
    lemma_here_supported(e, first_elem(e), t, offset, initial_caps());
    if here(e, first_elem(e), t, offset, initial_caps()) is Miss && !(anchored(e) || offset
        >= t.len()) {
        lemma_search_from_supported(e, t, offset + 1);
    }
}

// ── Search ───────────────────────────────────────────────────

/// The model of a match: its start and end offsets and its captures.
pub struct MatchModel {
    pub start: int,
    pub end: int,
    pub caps: CapsModel,
}

/// The result of a successful match: byte offsets into the text, plus any
/// captured groups.
pub struct Match {
    pub start: usize,
    pub end: usize,
    pub caps: Caps,
}

impl View for Match {
    type V = MatchModel;

    closed spec fn view(&self) -> MatchModel {
        MatchModel { start: self.start as int, end: self.end as int, caps: self.caps@ }
    }
}

/// The byte range of group `n` in a match with captures `c`, when `n` is 1 to
/// 9 and the group took part in the match.
pub open spec fn group_range(c: CapsModel, n: int) -> Option<(int, int)> {
    if 1 <= n <= 9 && c.valid[n - 1] {
        Some((c.start[n - 1], c.end[n - 1]))
    } else {
        None
    }
}

impl Match {
    /// A match's captures: nine slots, each closed group inside `0..=end`.
    pub open spec fn wf(self) -> bool {
        &&& self@.start == self.start
        &&& self@.end == self.end
        &&& self@.caps.start.len() == 9
        &&& self@.caps.end.len() == 9
        &&& self@.caps.valid.len() == 9
        &&& forall|i: int|
            0 <= i < 9 && #[trigger] self@.caps.valid[i] ==> 0 <= self@.caps.start[i]
                <= self@.caps.end[i] <= self@.end
    }

    /// Get the byte range of capturing group `n` (1-9). `None` if the group
    /// was not part of the pattern or did not take part in the match.
    pub fn group(&self, n: usize) -> (r: Option<(usize, usize)>)
        ensures
            match group_range(self@.caps, n as int) {
                Some((s, e)) => r == Some((s as usize, e as usize)),
                None => r is None,
            },
    {
        if n >= 1 && n <= 9 && self.caps.valid[n - 1] {
            Some((self.caps.start[n - 1], self.caps.end[n - 1]))
        } else {
            None
        }
    }
}

/// What a search found: a match, no match, or a group number outside 1 to 9
/// was reached while matching.
pub enum Search {
    Found(Match),
    NotFound,
    GroupLimit,
}

impl Search {
    pub open spec fn model(&self) -> SearchModel {
        match self {
            Search::Found(m) => SearchModel::Found(m@.start, m@.end, m@.caps),
            Search::NotFound => SearchModel::NotFound,
            Search::GroupLimit => SearchModel::Unsupported,
        }
    }
}

impl Regex {
    /// Search for this pattern in `text`, reporting a pattern with group
    /// numbers beyond 9 when the matcher reaches one of them.
    pub fn search(&self, text: &[u8]) -> (r: Search)
        ensures
            r.model() == search(self@, text@),
            r matches Search::Found(m) ==> m.wf(),
    {
        self.search_at(text, 0)
    }

    /// Search the whole `text` for a match that starts at `from` or later;
    /// offsets and captures count from the start of `text`, and `^` matches
    /// only at its start.
    pub fn search_at(&self, text: &[u8], from: usize) -> (r: Search)
        requires
            from <= text@.len(),
        ensures
            r.model() == search_at(self@, text@, from as int),
            r matches Search::Found(m) ==> m.wf(),
    {
        proof {
            use_type_invariant(self);
        }
        let is_anchored = self.elements.len() > 0 && matches!(self.elements[0], Element::Caret);
        let k0: usize = if is_anchored {
            1
        } else {
            0
        };
        proof {
            if self.elements.len() > 0 {
                assert(self@[0] == self.elements@[0]@);
            }
            assert(is_anchored == anchored(self@));
            assert(k0 == first_elem(self@));
        }
        if is_anchored && from > 0 {
            return Search::NotFound;
        }
        let mut offset: usize = from;
        loop
            invariant
                offset <= text.len(),
                groups_ordered(self@),
                k0 == first_elem(self@),
                k0 <= self@.len(),
                is_anchored == anchored(self@),
                search_at(self@, text@, from as int) == search_from(self@, text@, offset as int),
            decreases text@.len() - offset,
        {
            let caps = Caps::new();
            proof {
                assert(caps_ok(self@, k0 as int, caps@, offset as int));
            }
            match self.match_here(k0, text, offset, caps) {
                Attempt::Hit(len, c) => {
                    let m = Match { start: offset, end: offset + len, caps: c };
                    proof {
                        assert forall|i: int| 0 <= i < 9 && #[trigger] m@.caps.valid[i] implies 0
                            <= m@.caps.start[i] <= m@.caps.end[i] <= m@.end by {
                            assert(c@.valid[i]);
                        }
                    }
                    return Search::Found(m);
                },
                Attempt::Unsupported => {
                    return Search::GroupLimit;
                },
                Attempt::Miss => {},
            }
            if is_anchored || offset >= text.len() {
                return Search::NotFound;
            }
            offset += 1;
        }
    }

    /// Search for this pattern anywhere in `text`: the leftmost match, or
    /// `None`.
    pub fn find(&self, text: &[u8]) -> (r: Option<Match>)
        requires
            !(search(self@, text@) is Unsupported),
        ensures
            match search(self@, text@) {
                SearchModel::Found(s, e, c) => r matches Some(m) && m@ == (MatchModel {
                    start: s,
                    end: e,
                    caps: c,
                }) && m.wf(),
                _ => r is None,
            },
    {
        match self.search(text) {
            Search::Found(m) => Some(m),
            _ => None,
        }
    }
}


// ── Replacement ──────────────────────────────────────────────

/// The text of group `n` in match `m` of `t`, empty when the group did not
/// take part.
pub open spec fn group_text(m: MatchModel, n: int, t: Seq<u8>) -> Seq<u8> {
    match group_range(m.caps, n) {
        Some((s, e)) => t.subrange(s, e),
        None => Seq::empty(),
    }
}

/// The expansion of the replacement `r[i..]` for match `m` of `t`: `&` is the
/// whole match, `\1`-`\9` are groups, `\0NN` is the byte `0NN` in octal, and
/// any other escaped byte (`\&`, `\\`, ...) stands for itself.
pub open spec fn expand_from(r: Seq<u8>, i: int, m: MatchModel, t: Seq<u8>) -> Seq<u8>
    decreases r.len() - i,
{
    if i < 0 || i >= r.len() {
        Seq::empty()
    } else if r[i] == AMPERSAND {
        t.subrange(m.start, m.end) + expand_from(r, i + 1, m, t)
    } else if r[i] == BACKSLASH && i + 1 < r.len() {
        let c = r[i + 1];
        if DIGIT_1 <= c <= DIGIT_9 {
            group_text(m, c - DIGIT_0, t) + expand_from(r, i + 2, m, t)
        } else {
            let (b, j) = escaped_byte(r, i);
            seq![b] + expand_from(r, j, m, t)
        }
    } else {
        seq![r[i]] + expand_from(r, i + 1, m, t)
    }
}

pub open spec fn expand_spec(r: Seq<u8>, m: MatchModel, t: Seq<u8>) -> Seq<u8> {
    expand_from(r, 0, m, t)
}

/// Append `t[s..e]` to `out`.
pub fn push_range(out: &mut Vec<u8>, t: &[u8], s: usize, e: usize)
    requires
        s <= e <= t@.len(),
    ensures
        final(out)@ == old(out)@ + t@.subrange(s as int, e as int),
{
    let mut i = s;
    while i < e
        invariant
            s <= i <= e <= t@.len(),
            out@ == old(out)@ + t@.subrange(s as int, i as int),
        decreases e - i,
    {
        proof {
            assert(t@.subrange(s as int, i + 1) =~= t@.subrange(s as int, i as int).push(t@[i as int]));
        }
        out.push(t[i]);
        i += 1;
    }
}

/// Expand a replacement for match `m` of `text`.
pub fn expand_replacement(replacement: &[u8], m: &Match, text: &[u8]) -> (out: Vec<u8>)
    requires
        m.wf(),
        m@.start <= m@.end <= text@.len(),
    ensures
        out@ == expand_spec(replacement@, m@, text@),
{
    let ghost r = replacement@;
    let mut out: Vec<u8> = Vec::new();
    let mut i: usize = 0;
    while i < replacement.len()
        invariant
            i <= replacement@.len(),
            r == replacement@,
            m.wf(),
            m@.start <= m@.end <= text@.len(),
            out@ + expand_from(r, i as int, m@, text@) == expand_spec(r, m@, text@),
        decreases replacement@.len() - i,
    {
        let ghost before = out@;
        let c = replacement[i];
        if c == AMPERSAND {
            push_range(&mut out, text, m.start, m.end);
            proof {
                assert(out@ + expand_from(r, i + 1, m@, text@) =~= before + expand_from(
                    r,
                    i as int,
                    m@,
                    text@,
                ));
            }
            i += 1;
        } else if c == BACKSLASH && replacement.len() - i > 1 {
            let d = replacement[i + 1];
            if DIGIT_1 <= d && d <= DIGIT_9 {
                let n = (d - DIGIT_0) as usize;
                match m.group(n) {
                    Some((s, e)) => {
                        proof {
                            assert(m@.caps.valid[n - 1]);
                        }
                        push_range(&mut out, text, s, e);
                    },
                    None => {},
                }
                proof {
                    assert(out@ + expand_from(r, i + 2, m@, text@) =~= before + expand_from(
                        r,
                        i as int,
                        m@,
                        text@,
                    ));
                }
                i += 2;
            } else {
                let mut b = d;
                let mut j = i + 2;
                if d == DIGIT_0 && replacement.len() - i > 3 && DIGIT_0 <= replacement[i + 2]
                    && replacement[i + 2] <= DIGIT_7 && DIGIT_0 <= replacement[i + 3]
                    && replacement[i + 3] <= DIGIT_7 {
                    b = (replacement[i + 2] - DIGIT_0) * 8 + (replacement[i + 3] - DIGIT_0);
                    j = i + 4;
                }
                assert((b, j as int) == escaped_byte(r, i as int));
                out.push(b);
                proof {
                    assert(out@ + expand_from(r, j as int, m@, text@) =~= before + expand_from(
                        r,
                        i as int,
                        m@,
                        text@,
                    ));
                }
                i = j;
            }
        } else {
            out.push(c);
            proof {
                assert(out@ + expand_from(r, i + 1, m@, text@) =~= before + expand_from(
                    r,
                    i as int,
                    m@,
                    text@,
                ));
            }
            i += 1;
        }
    }
    proof {
        assert(out@ + expand_from(r, i as int, m@, text@) =~= out@);
    }
    out
}


// ── Laws of the matcher ──────────────────────────────────────

/// A successful match from `pos` consumes bytes of the text only: it ends at
/// or before the text's end.
pub proof fn lemma_here_bounds(e: Seq<ElemModel>, k: int, t: Seq<u8>, pos: int, caps: CapsModel)
    requires
        0 <= pos <= t.len(),
    ensures
        here(e, k, t, pos, caps) matches Outcome::Hit(len, _) ==> 0 <= len && pos + len <= t.len(),
    decreases e.len() - k, 1int, 0int,
{
    if k < 0 || k >= e.len() {
    } else {
        match e[k] {
            ElemModel::GroupStart(n) => {
                if 1 <= n <= 9 {
                    lemma_here_bounds(e, k + 1, t, pos, caps_start(caps, n - 1, pos));
                }
            },
            ElemModel::GroupEnd(n) => {
                if 1 <= n <= 9 {
                    lemma_here_bounds(e, k + 1, t, pos, caps_close(caps, n - 1, pos));
                }
            },
            ElemModel::BackRef(n) => {
                if 1 <= n <= 9 && caps.valid[n - 1] {
                    let cap = t.subrange(caps.start[n - 1], caps.end[n - 1]);
                    if pos + cap.len() <= t.len() {
                        lemma_here_bounds(e, k + 1, t, pos + cap.len(), caps);
                    }
                }
            },
            ElemModel::Star(a) => {
                lemma_star_bounds(e, k, a, t, pos, caps, 0);
            },
            ElemModel::One(a) => {
                if pos < t.len() {
                    lemma_here_bounds(e, k + 1, t, pos + 1, caps);
                }
            },
            _ => {},
        }
    }
}

pub proof fn lemma_star_bounds(
    e: Seq<ElemModel>,
    k: int,
    a: AtomModel,
    t: Seq<u8>,
    pos: int,
    caps: CapsModel,
    n: int,
)
    requires
        0 <= pos,
        0 <= n,
        pos + n <= t.len(),
    ensures
        star(e, k, a, t, pos, caps, n) matches Outcome::Hit(len, _) ==> n <= len && pos + len
            <= t.len(),
    decreases e.len() - k, 0int, t.len() - (pos + n),
{
    if k < 0 || k >= e.len() {
    } else {
        lemma_here_bounds(e, k + 1, t, pos + n, caps);
        match here(e, k + 1, t, pos + n, caps) {
            Outcome::Miss => {
                if !(pos + n >= t.len() || !atom_accepts(a, t[pos + n])) {
                    lemma_star_bounds(e, k, a, t, pos, caps, n + 1);
                }
            },
            _ => {},
        }
    }
}

/// Matching from element `k` at offset `pos` with a capture state that the
/// matcher can carry there consumes bytes within the text and leaves every
/// closed group inside what was matched: `start <= end <= pos + len`.
pub proof fn lemma_here_caps(e: Seq<ElemModel>, k: int, t: Seq<u8>, pos: int, caps: CapsModel)
    requires
        0 <= k,
        0 <= pos <= t.len(),
        groups_ordered(e),
        caps_ok(e, k, caps, pos),
    ensures
        here(e, k, t, pos, caps) matches Outcome::Hit(len, c) ==> pos + len <= t.len() && caps_ok(
            e,
            e.len() as int,
            c,
            pos + len,
        ),
    decreases e.len() - k, 1int, 0int,
{
    lemma_here_bounds(e, k, t, pos, caps);
    if k >= e.len() {
    } else {
        match e[k] {
            ElemModel::GroupStart(n) => {
                if 1 <= n <= 9 {
                    let c = caps_start(caps, n - 1, pos);
                    assert(!caps.valid[n - 1]);
                    assert(caps_ok(e, k + 1, c, pos));
                    lemma_here_caps(e, k + 1, t, pos, c);
                }
            },
            ElemModel::GroupEnd(n) => {
                if 1 <= n <= 9 {
                    let c = caps_close(caps, n - 1, pos);
                    assert forall|i: int| 0 <= i < 9 && #[trigger] c.valid[i] implies c.start[i]
                        <= c.end[i] <= pos && forall|j: int|
                        k + 1 <= j < e.len() ==> !(#[trigger] e[j] is GroupStart && marker_num(e[j])
                            == i + 1) by {
                        if i == n - 1 {
                            assert forall|j: int| k + 1 <= j < e.len() implies !(
                            #[trigger] e[j] is GroupStart && marker_num(e[j]) == i + 1) by {
                                if e[j] is GroupStart {
                                    assert(marker_num(e[k]) != marker_num(e[j]));
                                }
                            }
                        }
                    }
                    assert(caps_ok(e, k + 1, c, pos));
                    lemma_here_caps(e, k + 1, t, pos, c);
                }
            },
            ElemModel::BackRef(n) => {
                if 1 <= n <= 9 && caps.valid[n - 1] {
                    let cap = t.subrange(caps.start[n - 1], caps.end[n - 1]);
                    if pos + cap.len() <= t.len() {
                        assert(caps_ok(e, k + 1, caps, pos + cap.len()));
                        lemma_here_caps(e, k + 1, t, pos + cap.len(), caps);
                    }
                }
            },
            ElemModel::Star(a) => {
                lemma_star_caps(e, k, a, t, pos, caps, 0);
            },
            ElemModel::One(a) => {
                if pos < t.len() {
                    assert(caps_ok(e, k + 1, caps, pos + 1));
                    lemma_here_caps(e, k + 1, t, pos + 1, caps);
                }
            },
            _ => {},
        }
    }
}

pub proof fn lemma_star_caps(
    e: Seq<ElemModel>,
    k: int,
    a: AtomModel,
    t: Seq<u8>,
    pos: int,
    caps: CapsModel,
    n: int,
)
    requires
        0 <= k < e.len(),
        e[k] is Star,
        0 <= pos,
        0 <= n,
        pos + n <= t.len(),
        groups_ordered(e),
        caps_ok(e, k, caps, pos),
    ensures
        star(e, k, a, t, pos, caps, n) matches Outcome::Hit(len, c) ==> pos + len <= t.len()
            && caps_ok(e, e.len() as int, c, pos + len),
    decreases e.len() - k, 0int, t.len() - (pos + n),
{
    assert(caps_ok(e, k + 1, caps, pos + n));
    lemma_here_caps(e, k + 1, t, pos + n, caps);
    if here(e, k + 1, t, pos + n, caps) is Miss && !(pos + n >= t.len() || !atom_accepts(
        a,
        t[pos + n],
    )) {
        lemma_star_caps(e, k, a, t, pos, caps, n + 1);
    }
}

/// A match found from `offset` on starts at or after `offset` and lies
/// within the text.
pub proof fn lemma_search_from_bounds(e: Seq<ElemModel>, t: Seq<u8>, offset: int)
    requires
        0 <= offset <= t.len(),
    ensures
        search_from(e, t, offset) matches SearchModel::Found(s, en, _) ==> offset <= s <= en
            <= t.len(),
    decreases t.len() - offset,
{
    lemma_here_bounds(e, first_elem(e), t, offset, initial_caps());
    match here(e, first_elem(e), t, offset, initial_caps()) {
        Outcome::Miss => {
            if !(anchored(e) || offset >= t.len()) {
                lemma_search_from_bounds(e, t, offset + 1);
            }
        },
        _ => {},
    }
}

/// A match found at or after `from` starts there or later and lies within
/// the text.
pub proof fn lemma_search_at_bounds(e: Seq<ElemModel>, t: Seq<u8>, from: int)
    requires
        0 <= from <= t.len(),
    ensures
        search_at(e, t, from) matches SearchModel::Found(s, en, _) ==> from <= s <= en <= t.len(),
{
    lemma_search_from_bounds(e, t, from);
}

/// Law: a match lies within the text, `0 <= start <= end <= len`.
pub proof fn lemma_search_bounds(e: Seq<ElemModel>, t: Seq<u8>)
    ensures
        search(e, t) matches SearchModel::Found(s, en, _) ==> 0 <= s <= en <= t.len(),
{
    lemma_search_from_bounds(e, t, 0);
}

} // verus!
