//! Total orderings that the heaps, queues, sorts and searches are generic
//! over: a specification-level relation together with an executable
//! comparison that is proved to agree with it.

use vstd::prelude::*;

verus! {

/// A total preorder on a type: `leq_spec` is total and transitive, and the
/// executable `leq` decides it. Two values may be equivalent (each `leq` the
/// other) without being equal, so no antisymmetry is demanded; the
/// structures that need exact identity use [`eqv`] together with their own
/// uniqueness invariants.
pub trait TotalOrder: Sized {
    /// The ordering relation itself, at the specification level.
    spec fn leq_spec(self, other: Self) -> bool;

    /// Any two values are comparable.
    proof fn lemma_connex(a: Self, b: Self)
        ensures
            Self::leq_spec(a, b) || Self::leq_spec(b, a),
    ;

    /// The relation is transitive.
    proof fn lemma_transitive(a: Self, b: Self, c: Self)
        requires
            Self::leq_spec(a, b),
            Self::leq_spec(b, c),
        ensures
            Self::leq_spec(a, c),
    ;

    /// Decides the relation at run time.
    fn leq(&self, other: &Self) -> (r: bool)
        ensures
            r == Self::leq_spec(*self, *other),
    ;
}

/// Both directions of the ordering hold: the values are equivalent.
pub open spec fn eqv<T: TotalOrder>(a: T, b: T) -> bool {
    T::leq_spec(a, b) && T::leq_spec(b, a)
}

/// Equivalence is transitive, inherited from the ordering.
pub proof fn lemma_eqv_transitive<T: TotalOrder>(a: T, b: T, c: T)
    requires
        eqv(a, b),
        eqv(b, c),
    ensures
        eqv(a, c),
{
    T::lemma_transitive(a, b, c);
    T::lemma_transitive(c, b, a);
}

/// A value that can be copied out while provably staying the same value.
/// This takes the place of `Clone` wherever a proof must know that the copy
/// equals the original.
pub trait DupValue: Sized {
    fn duplicate(&self) -> (r: Self)
        ensures
            r == *self,
    ;
}

/// What the standard formatter prints for an integer.
pub uninterp spec fn decimal_text(x: int) -> Seq<char>;

/// What the standard formatter prints for a character.
pub uninterp spec fn char_text(c: char) -> Seq<char>;

/// Relies on the standard `Display` formatting of `i128`: the rendered
/// digits depend on the value alone.
#[verifier::external_body]
fn int_to_text(x: i128) -> (s: String)
    ensures
        s@ == decimal_text(x as int),
{
    format!("{}", x)
}

/// Relies on the standard `Display` formatting of `char`: the rendered
/// text depends on the character alone.
#[verifier::external_body]
fn char_to_text(c: char) -> (s: String)
    ensures
        s@ == char_text(c),
{
    format!("{}", c)
}

/// A value that can render itself as text, for display helpers.
pub trait TextValue: Sized {
    fn to_text(&self) -> String;
}

impl TextValue for i32 {
    fn to_text(&self) -> String {
        int_to_text(*self as i128)
    }
}

impl TextValue for i64 {
    fn to_text(&self) -> String {
        int_to_text(*self as i128)
    }
}

impl TextValue for u32 {
    fn to_text(&self) -> String {
        int_to_text(*self as i128)
    }
}

impl TextValue for u64 {
    fn to_text(&self) -> String {
        int_to_text(*self as i128)
    }
}

impl TextValue for usize {
    fn to_text(&self) -> String {
        int_to_text(*self as i128)
    }
}

impl TextValue for char {
    fn to_text(&self) -> String {
        char_to_text(*self)
    }
}

impl TextValue for String {
    fn to_text(&self) -> String {
        self.clone()
    }
}

/// Executable equivalence test, derived from the ordering.
pub fn eqv_exec<T: TotalOrder>(a: &T, b: &T) -> (r: bool)
    ensures
        r == eqv(*a, *b),
{
    a.leq(b) && b.leq(a)
}

/// The sequence is weakly ordered: any earlier element `leq` any later
/// one.
pub open spec fn sorted_leq<T: TotalOrder>(s: Seq<T>) -> bool {
    forall|a: int, b: int| 0 <= a < b < s.len() ==> T::leq_spec(#[trigger] s[a], #[trigger] s[b])
}

/// The slice of the sequence between `lo` (inclusive) and `hi`
/// (exclusive) is weakly ordered.
pub open spec fn sorted_between<T: TotalOrder>(s: Seq<T>, lo: int, hi: int) -> bool {
    forall|a: int, b: int|
        lo <= a < b < hi && 0 <= a && b < s.len() ==> T::leq_spec(#[trigger] s[a], #[trigger] s[b])
}

impl TotalOrder for i32 {
    open spec fn leq_spec(self, other: Self) -> bool {
        self <= other
    }

    proof fn lemma_connex(a: Self, b: Self) {
    }

    proof fn lemma_transitive(a: Self, b: Self, c: Self) {
    }

    fn leq(&self, other: &Self) -> (r: bool) {
        *self <= *other
    }
}

impl DupValue for i32 {
    fn duplicate(&self) -> (r: Self) {
        *self
    }
}

impl TotalOrder for i64 {
    open spec fn leq_spec(self, other: Self) -> bool {
        self <= other
    }

    proof fn lemma_connex(a: Self, b: Self) {
    }

    proof fn lemma_transitive(a: Self, b: Self, c: Self) {
    }

    fn leq(&self, other: &Self) -> (r: bool) {
        *self <= *other
    }
}

impl DupValue for i64 {
    fn duplicate(&self) -> (r: Self) {
        *self
    }
}

impl TotalOrder for u32 {
    open spec fn leq_spec(self, other: Self) -> bool {
        self <= other
    }

    proof fn lemma_connex(a: Self, b: Self) {
    }

    proof fn lemma_transitive(a: Self, b: Self, c: Self) {
    }

    fn leq(&self, other: &Self) -> (r: bool) {
        *self <= *other
    }
}

impl DupValue for u32 {
    fn duplicate(&self) -> (r: Self) {
        *self
    }
}

impl TotalOrder for u64 {
    open spec fn leq_spec(self, other: Self) -> bool {
        self <= other
    }

    proof fn lemma_connex(a: Self, b: Self) {
    }

    proof fn lemma_transitive(a: Self, b: Self, c: Self) {
    }

    fn leq(&self, other: &Self) -> (r: bool) {
        *self <= *other
    }
}

impl DupValue for u64 {
    fn duplicate(&self) -> (r: Self) {
        *self
    }
}

impl TotalOrder for usize {
    open spec fn leq_spec(self, other: Self) -> bool {
        self <= other
    }

    proof fn lemma_connex(a: Self, b: Self) {
    }

    proof fn lemma_transitive(a: Self, b: Self, c: Self) {
    }

    fn leq(&self, other: &Self) -> (r: bool) {
        *self <= *other
    }
}

impl DupValue for usize {
    fn duplicate(&self) -> (r: Self) {
        *self
    }
}

impl TotalOrder for char {
    open spec fn leq_spec(self, other: Self) -> bool {
        (self as u32) <= (other as u32)
    }

    proof fn lemma_connex(a: Self, b: Self) {
    }

    proof fn lemma_transitive(a: Self, b: Self, c: Self) {
    }

    fn leq(&self, other: &Self) -> (r: bool) {
        (*self as u32) <= (*other as u32)
    }
}

impl DupValue for char {
    fn duplicate(&self) -> (r: Self) {
        *self
    }
}

/// Lexicographic weak order on character sequences: compares position by
/// position, with a shorter sequence preceding any extension of itself.
pub open spec fn lex_leq(a: Seq<char>, b: Seq<char>) -> bool
    decreases a.len(),
{
    if a.len() == 0 {
        true
    } else if b.len() == 0 {
        false
    } else if a[0] == b[0] {
        lex_leq(a.drop_first(), b.drop_first())
    } else {
        (a[0] as u32) < (b[0] as u32)
    }
}

/// Any two character sequences are lexicographically comparable.
pub proof fn lemma_lex_connex(a: Seq<char>, b: Seq<char>)
    ensures
        lex_leq(a, b) || lex_leq(b, a),
    decreases a.len(),
{
    if a.len() == 0 || b.len() == 0 {
    } else if a[0] == b[0] {
        lemma_lex_connex(a.drop_first(), b.drop_first());
    } else {
        // differing characters have differing scalar values
        if (a[0] as u32) == (b[0] as u32) {
            vstd::utf8::char_u32_cast(a[0], a[0] as u32);
            vstd::utf8::char_u32_cast(b[0], b[0] as u32);
        }
    }
}

/// Lexicographic order is transitive.
pub proof fn lemma_lex_transitive(a: Seq<char>, b: Seq<char>, c: Seq<char>)
    requires
        lex_leq(a, b),
        lex_leq(b, c),
    ensures
        lex_leq(a, c),
    decreases a.len(),
{
    if a.len() == 0 {
    } else {
        // `b` and `c` are nonempty, or the hypotheses fail
        if a[0] == b[0] && b[0] == c[0] {
            lemma_lex_transitive(a.drop_first(), b.drop_first(), c.drop_first());
        }
    }
}

/// Sequences that agree on a prefix compare as their remainders do.
pub proof fn lemma_lex_skip(a: Seq<char>, b: Seq<char>, i: int)
    requires
        0 <= i <= a.len(),
        i <= b.len(),
        forall|k: int| 0 <= k < i ==> a[k] == b[k],
    ensures
        lex_leq(a, b) == lex_leq(a.skip(i), b.skip(i)),
    decreases i,
{
    if i == 0 {
        assert(a.skip(0) =~= a);
        assert(b.skip(0) =~= b);
    } else {
        assert(a.len() > 0 && b.len() > 0 && a[0] == b[0]);
        lemma_lex_skip(a.drop_first(), b.drop_first(), i - 1);
        assert(a.drop_first().skip(i - 1) =~= a.skip(i));
        assert(b.drop_first().skip(i - 1) =~= b.skip(i));
    }
}

impl TotalOrder for String {
    open spec fn leq_spec(self, other: Self) -> bool {
        lex_leq(self@, other@)
    }

    proof fn lemma_connex(a: Self, b: Self) {
        lemma_lex_connex(a@, b@);
    }

    proof fn lemma_transitive(a: Self, b: Self, c: Self) {
        lemma_lex_transitive(a@, b@, c@);
    }

    fn leq(&self, other: &Self) -> (r: bool) {
        let a = self.as_str();
        let b = other.as_str();
        let n = a.unicode_len();
        let m = b.unicode_len();
        let limit = if n < m {
            n
        } else {
            m
        };
        let mut i: usize = 0;
        while i < limit
            invariant
                i <= limit,
                limit == if n < m { n } else { m },
                n == a@.len(),
                m == b@.len(),
                a@ == self@,
                b@ == other@,
                forall|k: int| 0 <= k < i ==> a@[k] == b@[k],
            decreases limit - i,
        {
            let ca = a.get_char(i);
            let cb = b.get_char(i);
            if ca == cb {
                i = i + 1;
            } else {
                proof {
                    lemma_lex_skip(a@, b@, i as int);
                    assert(a@.skip(i as int)[0] == ca && b@.skip(i as int)[0] == cb);
                }
                return (ca as u32) < (cb as u32);
            }
        }
        proof {
            lemma_lex_skip(a@, b@, i as int);
            if n <= m {
                assert(a@.skip(i as int).len() == 0);
            } else {
                assert(b@.skip(i as int).len() == 0);
                assert(a@.skip(i as int).len() > 0);
            }
        }
        n <= m
    }
}

impl DupValue for String {
    fn duplicate(&self) -> (r: Self) {
        self.clone()
    }
}

} // verus!
