use vstd::prelude::*;
use vstd::pervasive::strictly_cloned;

pub mod slr;

verus! {

/// Grammar symbols (nonterminals and terminals) implement this trait.
pub trait ItemTrait: Clone + PartialEq + Eq + core::hash::Hash {}

/// One symbol on the right-hand side of a production.
#[derive(Debug, Clone, PartialEq, Eq, Hash)]
pub enum Item<N: ItemTrait, T: ItemTrait> {
    NonTerminal(N),
    Terminal(T),
    Epsilon,
    EndOfInput,
}

/// What can begin a string derived from a symbol: a terminal, the empty
/// string, or the end of the input.
#[derive(Debug, Clone, PartialEq, Eq, Hash)]
pub enum Terminal<T: ItemTrait> {
    Terminal(T),
    Epsilon,
    EndOfInput,
}

/// A production `head -> body`.
#[derive(Debug, Clone, PartialEq, Eq, Hash)]
pub struct Production<N: ItemTrait, T: ItemTrait>(pub N, pub Vec<Item<N, T>>);

// ---------------------------------------------------------------------------
// What the symbol types must do: `==` is equality and `clone` copies.
// ---------------------------------------------------------------------------

/// `==` on `A` is equality of values, and a clone of a value equals it.
pub open spec fn symbol_laws<A: ItemTrait>() -> bool {
    &&& vstd::laws_eq::obeys_concrete_eq::<A>()
    &&& forall|a: A, b: A| #[trigger] strictly_cloned(a, b) ==> a == b
}

/// Both symbol types of a grammar obey [`symbol_laws`].
pub open spec fn grammar_laws<N: ItemTrait, T: ItemTrait>() -> bool {
    symbol_laws::<N>() && symbol_laws::<T>()
}

/// Compares two symbols.
pub fn symbol_eq<A: ItemTrait>(a: &A, b: &A) -> (r: bool)
    requires
        symbol_laws::<A>(),
    ensures
        r == (*a == *b),
{
    proof {
        reveal(vstd::laws_eq::obeys_concrete_eq);
    }
    *a == *b
}

/// Copies a symbol.
pub fn symbol_clone<A: ItemTrait>(a: &A) -> (r: A)
    requires
        symbol_laws::<A>(),
    ensures
        r == *a,
{
    let r = a.clone();
    assert(strictly_cloned(*a, r));
    r
}

/// Compares two right-hand-side symbols.
pub fn item_eq<N: ItemTrait, T: ItemTrait>(a: &Item<N, T>, b: &Item<N, T>) -> (r: bool)
    requires
        grammar_laws::<N, T>(),
    ensures
        r == (*a == *b),
{
    match (a, b) {
        (Item::NonTerminal(x), Item::NonTerminal(y)) => symbol_eq(x, y),
        (Item::Terminal(x), Item::Terminal(y)) => symbol_eq(x, y),
        (Item::Epsilon, Item::Epsilon) => true,
        (Item::EndOfInput, Item::EndOfInput) => true,
        _ => false,
    }
}

/// Copies a right-hand-side symbol.
pub fn item_clone<N: ItemTrait, T: ItemTrait>(a: &Item<N, T>) -> (r: Item<N, T>)
    requires
        grammar_laws::<N, T>(),
    ensures
        r == *a,
{
    match a {
        Item::NonTerminal(x) => Item::NonTerminal(symbol_clone(x)),
        Item::Terminal(x) => Item::Terminal(symbol_clone(x)),
        Item::Epsilon => Item::Epsilon,
        Item::EndOfInput => Item::EndOfInput,
    }
}

/// Compares two elements of FIRST sets.
pub fn terminal_eq<T: ItemTrait>(a: &Terminal<T>, b: &Terminal<T>) -> (r: bool)
    requires
        symbol_laws::<T>(),
    ensures
        r == (*a == *b),
{
    match (a, b) {
        (Terminal::Terminal(x), Terminal::Terminal(y)) => symbol_eq(x, y),
        (Terminal::Epsilon, Terminal::Epsilon) => true,
        (Terminal::EndOfInput, Terminal::EndOfInput) => true,
        _ => false,
    }
}

/// Copies an element of a FIRST set.
pub fn terminal_clone<T: ItemTrait>(a: &Terminal<T>) -> (r: Terminal<T>)
    requires
        symbol_laws::<T>(),
    ensures
        r == *a,
{
    match a {
        Terminal::Terminal(x) => Terminal::Terminal(symbol_clone(x)),
        Terminal::Epsilon => Terminal::Epsilon,
        Terminal::EndOfInput => Terminal::EndOfInput,
    }
}

/// Copies a sequence of right-hand-side symbols.
pub fn items_clone<N: ItemTrait, T: ItemTrait>(a: &[Item<N, T>]) -> (r: Vec<Item<N, T>>)
    requires
        grammar_laws::<N, T>(),
    ensures
        r@ == a@,
{
    let mut r: Vec<Item<N, T>> = Vec::new();
    for i in 0..a.len()
        invariant
            grammar_laws::<N, T>(),
            r@ == a@.take(i as int),
    {
        r.push(item_clone(&a[i]));
        assert(a@.take(i + 1) == a@.take(i as int).push(a@[i as int]));
    }
    assert(a@.take(a@.len() as int) == a@);
    r
}

/// Copies the symbols of `a` from position `lo` up to (not including) `hi`.
pub fn items_subrange_clone<N: ItemTrait, T: ItemTrait>(
    a: &[Item<N, T>],
    lo: usize,
    hi: usize,
) -> (r: Vec<Item<N, T>>)
    requires
        grammar_laws::<N, T>(),
        lo <= hi <= a@.len(),
    ensures
        r@ == a@.subrange(lo as int, hi as int),
{
    let mut r: Vec<Item<N, T>> = Vec::new();
    let mut i = lo;
    while i < hi
        invariant
            grammar_laws::<N, T>(),
            lo <= i <= hi <= a@.len(),
            r@ == a@.subrange(lo as int, i as int),
        decreases hi - i,
    {
        r.push(item_clone(&a[i]));
        assert(a@.subrange(lo as int, i + 1) == a@.subrange(lo as int, i as int).push(a@[i as int]));
        i = i + 1;
    }
    r
}

/// Compares two sequences of right-hand-side symbols.
pub fn items_eq<N: ItemTrait, T: ItemTrait>(a: &[Item<N, T>], b: &[Item<N, T>]) -> (r: bool)
    requires
        grammar_laws::<N, T>(),
    ensures
        r == (a@ == b@),
{
    if a.len() != b.len() {
        return false;
    }
    for i in 0..a.len()
        invariant
            grammar_laws::<N, T>(),
            a@.len() == b@.len(),
            forall|j: int| 0 <= j < i ==> a@[j] == b@[j],
    {
        if !item_eq(&a[i], &b[i]) {
            return false;
        }
    }
    assert(a@ == b@);
    true
}

/// Compares two productions.
pub fn production_eq<N: ItemTrait, T: ItemTrait>(a: &Production<N, T>, b: &Production<N, T>) -> (r:
    bool)
    requires
        grammar_laws::<N, T>(),
    ensures
        r == (a.0 == b.0 && a.1@ == b.1@),
{
    symbol_eq(&a.0, &b.0) && items_eq(a.1.as_slice(), b.1.as_slice())
}

/// Copies a production.
pub fn production_clone<N: ItemTrait, T: ItemTrait>(a: &Production<N, T>) -> (r: Production<N, T>)
    requires
        grammar_laws::<N, T>(),
    ensures
        r.0 == a.0,
        r.1@ == a.1@,
{
    Production(symbol_clone(&a.0), items_clone(a.1.as_slice()))
}

// ---------------------------------------------------------------------------
// Association tables keyed by symbols.
// ---------------------------------------------------------------------------

/// No key occurs twice in `tbl`.
pub open spec fn keys_distinct<K, V>(tbl: Seq<(K, V)>) -> bool {
    forall|i: int, j: int| 0 <= i < j < tbl.len() ==> tbl[i].0 != tbl[j].0
}

/// `k` is a key of `tbl`.
pub open spec fn has_key<K, V>(tbl: Seq<(K, V)>, k: K) -> bool {
    exists|i: int| 0 <= i < tbl.len() && #[trigger] tbl[i].0 == k
}

/// Finds the position of `key` in a table whose keys are distinct.
pub fn find_key<K: ItemTrait, V>(tbl: &Vec<(K, V)>, key: &K) -> (r: Option<usize>)
    requires
        symbol_laws::<K>(),
    ensures
        match r {
            Some(i) => i < tbl@.len() && tbl@[i as int].0 == *key && forall|j: int|
                0 <= j < i ==> tbl@[j].0 != *key,
            None => !has_key(tbl@, *key),
        },
{
    for i in 0..tbl.len()
        invariant
            symbol_laws::<K>(),
            forall|j: int| 0 <= j < i ==> tbl@[j].0 != *key,
    {
        if symbol_eq(&tbl[i].0, key) {
            return Some(i);
        }
    }
    None
}

// ---------------------------------------------------------------------------
// Nullability.
// ---------------------------------------------------------------------------

/// `n` is the head of some production.
pub open spec fn is_head<N: ItemTrait, T: ItemTrait>(prods: Seq<Production<N, T>>, n: N) -> bool {
    exists|i: int| 0 <= i < prods.len() && #[trigger] prods[i].0 == n
}

/// Nonterminal `n` derives the empty string in a derivation of depth at most `k`.
pub open spec fn nullable_within<N: ItemTrait, T: ItemTrait>(
    prods: Seq<Production<N, T>>,
    n: N,
    k: nat,
) -> bool
    decreases k,
{
    if k == 0 {
        false
    } else {
        exists|i: int|
            0 <= i < prods.len() && #[trigger] prods[i].0 == n && forall|j: int|
                0 <= j < prods[i].1@.len() ==> match #[trigger] prods[i].1@[j] {
                    Item::Epsilon => true,
                    Item::NonTerminal(m) => nullable_within(prods, m, (k - 1) as nat),
                    _ => false,
                }
    }
}

/// `item` derives the empty string in a derivation of depth at most `k`.
pub open spec fn item_nullable_within<N: ItemTrait, T: ItemTrait>(
    prods: Seq<Production<N, T>>,
    item: Item<N, T>,
    k: nat,
) -> bool {
    match item {
        Item::Epsilon => true,
        Item::NonTerminal(m) => nullable_within(prods, m, k),
        _ => false,
    }
}

/// Every symbol of `rhs` derives the empty string within depth `k`.
pub open spec fn rhs_nullable_within<N: ItemTrait, T: ItemTrait>(
    prods: Seq<Production<N, T>>,
    rhs: Seq<Item<N, T>>,
    k: nat,
) -> bool {
    forall|j: int| 0 <= j < rhs.len() ==> item_nullable_within(prods, #[trigger] rhs[j], k)
}

/// Unfolds one step of [`nullable_within`].
pub proof fn lemma_nullable_within_unfold<N: ItemTrait, T: ItemTrait>(
    prods: Seq<Production<N, T>>,
    n: N,
    k: nat,
)
    ensures
        nullable_within(prods, n, k + 1) <==> exists|i: int|
            0 <= i < prods.len() && prods[i].0 == n && #[trigger] rhs_nullable_within(
                prods,
                prods[i].1@,
                k,
            ),
{
    if nullable_within(prods, n, k + 1) {
        let i = choose|i: int|
            0 <= i < prods.len() && #[trigger] prods[i].0 == n && forall|j: int|
                0 <= j < prods[i].1@.len() ==> match #[trigger] prods[i].1@[j] {
                    Item::Epsilon => true,
                    Item::NonTerminal(m) => nullable_within(prods, m, k),
                    _ => false,
                };
        assert(rhs_nullable_within(prods, prods[i].1@, k));
    }
    if exists|i: int|
        0 <= i < prods.len() && prods[i].0 == n && #[trigger] rhs_nullable_within(
            prods,
            prods[i].1@,
            k,
        ) {
        let i = choose|i: int|
            0 <= i < prods.len() && prods[i].0 == n && #[trigger] rhs_nullable_within(
                prods,
                prods[i].1@,
                k,
            );
        let rhs = prods[i].1@;
        assert forall|j: int| 0 <= j < rhs.len() implies match #[trigger] rhs[j] {
            Item::Epsilon => true,
            Item::NonTerminal(m) => nullable_within(prods, m, k),
            _ => false,
        } by {
            assert(item_nullable_within(prods, rhs[j], k));
        }
        assert(nullable_within(prods, n, k + 1));
    }
}

/// Nonterminal `n` derives the empty string.
pub open spec fn is_nullable<N: ItemTrait, T: ItemTrait>(prods: Seq<Production<N, T>>, n: N) -> bool {
    exists|k: nat| nullable_within(prods, n, k)
}

/// A right-hand-side symbol derives the empty string.
pub open spec fn item_is_nullable<N: ItemTrait, T: ItemTrait>(
    prods: Seq<Production<N, T>>,
    item: Item<N, T>,
) -> bool {
    match item {
        Item::Epsilon => true,
        Item::NonTerminal(m) => is_nullable(prods, m),
        _ => false,
    }
}

/// The first `j` symbols of `rhs` all derive the empty string.
pub open spec fn prefix_nullable<N: ItemTrait, T: ItemTrait>(
    prods: Seq<Production<N, T>>,
    rhs: Seq<Item<N, T>>,
    j: int,
) -> bool {
    forall|l: int| 0 <= l < j ==> item_is_nullable(prods, #[trigger] rhs[l])
}

/// The whole of `rhs` derives the empty string.
pub open spec fn rhs_is_nullable<N: ItemTrait, T: ItemTrait>(
    prods: Seq<Production<N, T>>,
    rhs: Seq<Item<N, T>>,
) -> bool {
    prefix_nullable(prods, rhs, rhs.len() as int)
}

/// `tbl` records, for each head of `prods` and nothing else, whether it is nullable.
pub open spec fn nullable_table_correct<N: ItemTrait, T: ItemTrait>(
    prods: Seq<Production<N, T>>,
    tbl: Seq<(N, bool)>,
) -> bool {
    &&& keys_distinct(tbl)
    &&& forall|n: N| has_key(tbl, n) <==> is_head(prods, n)
    &&& forall|i: int| 0 <= i < tbl.len() ==> #[trigger] tbl[i].1 == is_nullable(prods, tbl[i].0)
}

/// `tbl` marks `n` nullable.
pub open spec fn table_says_nullable<N>(tbl: Seq<(N, bool)>, n: N) -> bool {
    exists|i: int| 0 <= i < tbl.len() && #[trigger] tbl[i].0 == n && tbl[i].1
}

/// A symbol counts as nullable according to `tbl`.
pub open spec fn item_nullable_in<N: ItemTrait, T: ItemTrait>(
    tbl: Seq<(N, bool)>,
    item: Item<N, T>,
) -> bool {
    match item {
        Item::Epsilon => true,
        Item::NonTerminal(m) => table_says_nullable(tbl, m),
        _ => false,
    }
}

/// Every symbol of `rhs` counts as nullable according to `tbl`.
pub open spec fn rhs_nullable_in<N: ItemTrait, T: ItemTrait>(
    tbl: Seq<(N, bool)>,
    rhs: Seq<Item<N, T>>,
) -> bool {
    forall|j: int| 0 <= j < rhs.len() ==> item_nullable_in(tbl, #[trigger] rhs[j])
}

/// Every entry of `tbl` is right about its nonterminal, and no key occurs twice;
/// nonterminals may be missing.
pub open spec fn nullable_entries_correct<N: ItemTrait, T: ItemTrait>(
    prods: Seq<Production<N, T>>,
    tbl: Seq<(N, bool)>,
) -> bool {
    &&& keys_distinct(tbl)
    &&& forall|i: int| 0 <= i < tbl.len() ==> #[trigger] tbl[i].1 == is_nullable(prods, tbl[i].0)
}

/// A symbol is nullable according to `tbl` where `tbl` has an entry for it,
/// and according to the productions where it has none.
pub open spec fn item_nullable_given<N: ItemTrait, T: ItemTrait>(
    prods: Seq<Production<N, T>>,
    tbl: Seq<(N, bool)>,
    item: Item<N, T>,
) -> bool {
    match item {
        Item::Epsilon => true,
        Item::NonTerminal(m) => if has_key(tbl, m) {
            table_says_nullable(tbl, m)
        } else {
            is_nullable(prods, m)
        },
        _ => false,
    }
}

/// Every symbol of `rhs` is nullable in the sense of [`item_nullable_given`].
pub open spec fn rhs_nullable_given<N: ItemTrait, T: ItemTrait>(
    prods: Seq<Production<N, T>>,
    tbl: Seq<(N, bool)>,
    rhs: Seq<Item<N, T>>,
) -> bool {
    forall|j: int| 0 <= j < rhs.len() ==> item_nullable_given(prods, tbl, #[trigger] rhs[j])
}

/// Some production of `m` has a body that is nullable in the sense of
/// [`rhs_nullable_given`].
pub open spec fn head_nullable_given<N: ItemTrait, T: ItemTrait>(
    prods: Seq<Production<N, T>>,
    tbl: Seq<(N, bool)>,
    m: N,
) -> bool {
    exists|i: int|
        0 <= i < prods.len() && #[trigger] prods[i].0 == m && rhs_nullable_given(
            prods,
            tbl,
            prods[i].1@,
        )
}

/// [`head_nullable_given`] as a predicate on nonterminals.
pub open spec fn given_fn<N: ItemTrait, T: ItemTrait>(
    prods: Seq<Production<N, T>>,
    tbl: Seq<(N, bool)>,
) -> spec_fn(N) -> bool {
    |m: N| head_nullable_given(prods, tbl, m)
}

/// With correct entries, the table and the productions agree on every symbol.
pub proof fn lemma_nullable_given_agrees<N: ItemTrait, T: ItemTrait>(
    prods: Seq<Production<N, T>>,
    tbl: Seq<(N, bool)>,
    rhs: Seq<Item<N, T>>,
)
    requires
        nullable_entries_correct(prods, tbl),
    ensures
        rhs_nullable_given(prods, tbl, rhs) == rhs_is_nullable(prods, rhs),
{
    assert forall|j: int| 0 <= j < rhs.len() implies item_nullable_given(prods, tbl, #[trigger] rhs[j])
        == item_is_nullable(prods, rhs[j]) by {
        if let Item::NonTerminal(m) = rhs[j] {
            if has_key(tbl, m) {
                let e = choose|e: int| 0 <= e < tbl.len() && #[trigger] tbl[e].0 == m;
                if table_says_nullable(tbl, m) {
                    let e2 = choose|e2: int| 0 <= e2 < tbl.len() && #[trigger] tbl[e2].0 == m && tbl[e2].1;
                }
                if is_nullable(prods, m) {
                    assert(tbl[e].1);
                }
            }
        }
    }
}

/// A sequence is nullable exactly when both of its parts are.
pub proof fn lemma_rhs_nullable_given_concat<N: ItemTrait, T: ItemTrait>(
    prods: Seq<Production<N, T>>,
    tbl: Seq<(N, bool)>,
    a: Seq<Item<N, T>>,
    b: Seq<Item<N, T>>,
)
    ensures
        rhs_nullable_given(prods, tbl, a + b) == (rhs_nullable_given(prods, tbl, a)
            && rhs_nullable_given(prods, tbl, b)),
        rhs_is_nullable(prods, a + b) == (rhs_is_nullable(prods, a) && rhs_is_nullable(prods, b)),
{
    let ab = a + b;
    if rhs_nullable_given(prods, tbl, ab) {
        assert forall|j: int| 0 <= j < a.len() implies item_nullable_given(prods, tbl, #[trigger] a[j]) by {
            assert(ab[j] == a[j]);
        }
        assert forall|j: int| 0 <= j < b.len() implies item_nullable_given(prods, tbl, #[trigger] b[j]) by {
            assert(ab[a.len() + j] == b[j]);
        }
    }
    if rhs_nullable_given(prods, tbl, a) && rhs_nullable_given(prods, tbl, b) {
        assert forall|j: int| 0 <= j < ab.len() implies item_nullable_given(prods, tbl, #[trigger] ab[j]) by {
            if j < a.len() {
                assert(ab[j] == a[j]);
            } else {
                assert(ab[j] == b[j - a.len()]);
            }
        }
    }
    if rhs_is_nullable(prods, ab) {
        assert forall|j: int| 0 <= j < a.len() implies item_is_nullable(prods, #[trigger] a[j]) by {
            assert(ab[j] == a[j]);
        }
        assert forall|j: int| 0 <= j < b.len() implies item_is_nullable(prods, #[trigger] b[j]) by {
            assert(ab[a.len() + j] == b[j]);
        }
    }
    if rhs_is_nullable(prods, a) && rhs_is_nullable(prods, b) {
        assert forall|j: int| 0 <= j < ab.len() implies item_is_nullable(prods, #[trigger] ab[j]) by {
            if j < a.len() {
                assert(ab[j] == a[j]);
            } else {
                assert(ab[j] == b[j - a.len()]);
            }
        }
    }
}

/// The empty sequence is nullable, and a single symbol is nullable exactly
/// when it is the empty string, or a nonterminal that the table marks
/// nullable, or, without an entry in the table, one that derives the empty
/// string.
pub proof fn lemma_rhs_nullable_given_short<N: ItemTrait, T: ItemTrait>(
    prods: Seq<Production<N, T>>,
    tbl: Seq<(N, bool)>,
    x: Item<N, T>,
)
    ensures
        rhs_nullable_given(prods, tbl, Seq::<Item<N, T>>::empty()),
        rhs_nullable_given(prods, tbl, seq![x]) == match x {
            Item::Epsilon => true,
            Item::NonTerminal(m) => if has_key(tbl, m) {
                exists|i: int| 0 <= i < tbl.len() && #[trigger] tbl[i].0 == m && tbl[i].1
            } else {
                is_nullable(prods, m)
            },
            _ => false,
        },
{
    let one = seq![x];
    assert(one[0] == x);
    if rhs_nullable_given(prods, tbl, one) {
        assert(item_nullable_given(prods, tbl, one[0]));
    }
}

/// A nonterminal counts as nullable, with a table of known nullability, when
/// one of its productions, whichever, has a body every symbol of which is
/// the empty string or a nonterminal marked nullable by the table (or, with
/// no entry there, deriving the empty string).
pub proof fn lemma_given_nullability_law<N: ItemTrait, T: ItemTrait>(
    prods: Seq<Production<N, T>>,
    tbl: Seq<(N, bool)>,
    m: N,
)
    ensures
        given_fn(prods, tbl)(m) <==> exists|p: int|
            0 <= p < prods.len() && #[trigger] prods[p].0 == m && forall|l: int|
                0 <= l < prods[p].1@.len() ==> match #[trigger] prods[p].1@[l] {
                    Item::Epsilon => true,
                    Item::NonTerminal(x) => if has_key(tbl, x) {
                        table_says_nullable(tbl, x)
                    } else {
                        is_nullable(prods, x)
                    },
                    _ => false,
                },
{
    if given_fn(prods, tbl)(m) {
        let p = choose|p: int|
            0 <= p < prods.len() && #[trigger] prods[p].0 == m && rhs_nullable_given(
                prods,
                tbl,
                prods[p].1@,
            );
        let body = prods[p].1@;
        assert forall|l: int| 0 <= l < body.len() implies match #[trigger] body[l] {
            Item::Epsilon => true,
            Item::NonTerminal(x) => if has_key(tbl, x) {
                table_says_nullable(tbl, x)
            } else {
                is_nullable(prods, x)
            },
            _ => false,
        } by {
            assert(item_nullable_given(prods, tbl, body[l]));
        }
    }
    if exists|p: int|
        0 <= p < prods.len() && #[trigger] prods[p].0 == m && forall|l: int|
            0 <= l < prods[p].1@.len() ==> match #[trigger] prods[p].1@[l] {
                Item::Epsilon => true,
                Item::NonTerminal(x) => if has_key(tbl, x) {
                    table_says_nullable(tbl, x)
                } else {
                    is_nullable(prods, x)
                },
                _ => false,
            } {
        let p = choose|p: int|
            0 <= p < prods.len() && #[trigger] prods[p].0 == m && forall|l: int|
                0 <= l < prods[p].1@.len() ==> match #[trigger] prods[p].1@[l] {
                    Item::Epsilon => true,
                    Item::NonTerminal(x) => if has_key(tbl, x) {
                        table_says_nullable(tbl, x)
                    } else {
                        is_nullable(prods, x)
                    },
                    _ => false,
                };
        let body = prods[p].1@;
        assert forall|l: int| 0 <= l < body.len() implies item_nullable_given(prods, tbl, #[trigger] body[l]) by {
            assert(match body[l] {
                Item::Epsilon => true,
                Item::NonTerminal(x) => if has_key(tbl, x) {
                    table_says_nullable(tbl, x)
                } else {
                    is_nullable(prods, x)
                },
                _ => false,
            });
        }
        assert(head_nullable_given(prods, tbl, m));
    }
}

/// A nullability witness of depth `k` is one of every greater depth.
pub proof fn lemma_nullable_within_mono<N: ItemTrait, T: ItemTrait>(
    prods: Seq<Production<N, T>>,
    n: N,
    k1: nat,
    k2: nat,
)
    requires
        k1 <= k2,
        nullable_within(prods, n, k1),
    ensures
        nullable_within(prods, n, k2),
    decreases k1,
{
    let p1 = (k1 - 1) as nat;
    let p2 = (k2 - 1) as nat;
    lemma_nullable_within_unfold(prods, n, p1);
    lemma_nullable_within_unfold(prods, n, p2);
    let i = choose|i: int|
        0 <= i < prods.len() && prods[i].0 == n && #[trigger] rhs_nullable_within(
            prods,
            prods[i].1@,
            p1,
        );
    let rhs = prods[i].1@;
    assert forall|j: int| 0 <= j < rhs.len() implies item_nullable_within(
        prods,
        #[trigger] rhs[j],
        p2,
    ) by {
        assert(item_nullable_within(prods, rhs[j], p1));
        if let Item::NonTerminal(m) = rhs[j] {
            lemma_nullable_within_mono(prods, m, p1, p2);
        }
    }
    assert(rhs_nullable_within(prods, prods[i].1@, p2));
}

/// A sequence of nullable symbols is nullable within one common depth.
pub proof fn lemma_rhs_nullable_depth<N: ItemTrait, T: ItemTrait>(
    prods: Seq<Production<N, T>>,
    rhs: Seq<Item<N, T>>,
) -> (k: nat)
    requires
        rhs_is_nullable(prods, rhs),
    ensures
        rhs_nullable_within(prods, rhs, k),
    decreases rhs.len(),
{
    if rhs.len() == 0 {
        0
    } else {
        let init = rhs.drop_last();
        assert(rhs_is_nullable(prods, init)) by {
            assert forall|l: int| 0 <= l < init.len() implies item_is_nullable(
                prods,
                #[trigger] init[l],
            ) by {
                assert(init[l] == rhs[l]);
            }
        }
        let k0 = lemma_rhs_nullable_depth(prods, init);
        let last = rhs[rhs.len() - 1];
        assert(item_is_nullable(prods, last));
        let k1: nat = match last {
            Item::NonTerminal(m) => choose|k: nat| nullable_within(prods, m, k),
            _ => 0,
        };
        let k = if k0 < k1 {
            k1
        } else {
            k0
        };
        assert forall|j: int| 0 <= j < rhs.len() implies item_nullable_within(
            prods,
            #[trigger] rhs[j],
            k,
        ) by {
            if j < rhs.len() - 1 {
                assert(init[j] == rhs[j]);
                assert(item_nullable_within(prods, init[j], k0));
                if let Item::NonTerminal(m) = rhs[j] {
                    lemma_nullable_within_mono(prods, m, k0, k);
                }
            } else {
                if let Item::NonTerminal(m) = rhs[j] {
                    lemma_nullable_within_mono(prods, m, k1, k);
                }
            }
        }
        k
    }
}

/// A head whose body is nullable is nullable.
pub proof fn lemma_production_nullable<N: ItemTrait, T: ItemTrait>(
    prods: Seq<Production<N, T>>,
    i: int,
)
    requires
        0 <= i < prods.len(),
        rhs_is_nullable(prods, prods[i].1@),
    ensures
        is_nullable(prods, prods[i].0),
{
    let k = lemma_rhs_nullable_depth(prods, prods[i].1@);
    lemma_nullable_within_unfold(prods, prods[i].0, k);
    assert(nullable_within(prods, prods[i].0, k + 1));
}

/// A nullable nonterminal heads a production whose body is nullable.
pub proof fn lemma_nullable_has_production<N: ItemTrait, T: ItemTrait>(
    prods: Seq<Production<N, T>>,
    n: N,
) -> (i: int)
    requires
        is_nullable(prods, n),
    ensures
        0 <= i < prods.len(),
        prods[i].0 == n,
        rhs_is_nullable(prods, prods[i].1@),
{
    let k = choose|k: nat| nullable_within(prods, n, k);
    assert(k > 0);
    lemma_nullable_within_unfold(prods, n, (k - 1) as nat);
    let i = choose|i: int|
        0 <= i < prods.len() && prods[i].0 == n && #[trigger] rhs_nullable_within(
            prods,
            prods[i].1@,
            (k - 1) as nat,
        );
    let rhs = prods[i].1@;
    assert forall|l: int| 0 <= l < rhs.len() implies item_is_nullable(prods, #[trigger] rhs[l]) by {
        assert(item_nullable_within(prods, rhs[l], (k - 1) as nat));
    }
    i
}

/// Number of entries of `tbl` not yet marked nullable.
pub open spec fn count_unmarked<N>(tbl: Seq<(N, bool)>) -> nat
    decreases tbl.len(),
{
    if tbl.len() == 0 {
        0
    } else {
        count_unmarked(tbl.drop_last()) + if tbl.last().1 {
            0nat
        } else {
            1nat
        }
    }
}

/// Marking an unmarked entry lowers the count of unmarked entries by one.
proof fn lemma_count_unmarked_mark<N>(tbl: Seq<(N, bool)>, i: int, key: N)
    requires
        0 <= i < tbl.len(),
        !tbl[i].1,
    ensures
        count_unmarked(tbl.update(i, (key, true))) + 1 == count_unmarked(tbl),
    decreases tbl.len(),
{
    let t2 = tbl.update(i, (key, true));
    if i == tbl.len() - 1 {
        assert(t2.drop_last() == tbl.drop_last());
    } else {
        assert(t2.drop_last() == tbl.drop_last().update(i, (key, true)));
        lemma_count_unmarked_mark(tbl.drop_last(), i, key);
    }
}

/// A table closed under the nullability rule marks every nullable head.
proof fn lemma_nullable_table_complete<N: ItemTrait, T: ItemTrait>(
    prods: Seq<Production<N, T>>,
    tbl: Seq<(N, bool)>,
    n: N,
    k: nat,
)
    requires
        forall|i: int|
            0 <= i < prods.len() && #[trigger] rhs_nullable_in(tbl, prods[i].1@)
                ==> table_says_nullable(tbl, prods[i].0),
        nullable_within(prods, n, k),
    ensures
        table_says_nullable(tbl, n),
    decreases k,
{
    lemma_nullable_within_unfold(prods, n, (k - 1) as nat);
    let i = choose|i: int|
        0 <= i < prods.len() && prods[i].0 == n && #[trigger] rhs_nullable_within(
            prods,
            prods[i].1@,
            (k - 1) as nat,
        );
    let rhs = prods[i].1@;
    assert forall|j: int| 0 <= j < rhs.len() implies item_nullable_in(tbl, #[trigger] rhs[j]) by {
        assert(item_nullable_within(prods, rhs[j], (k - 1) as nat));
        if let Item::NonTerminal(m) = rhs[j] {
            lemma_nullable_table_complete(prods, tbl, m, (k - 1) as nat);
        }
    }
    assert(rhs_nullable_in(tbl, prods[i].1@));
}

/// With correct entries, a nonterminal is nullable in the sense of
/// [`head_nullable_given`] exactly when it is nullable.
pub proof fn lemma_given_fn_agrees<N: ItemTrait, T: ItemTrait>(
    prods: Seq<Production<N, T>>,
    tbl: Seq<(N, bool)>,
)
    requires
        nullable_entries_correct(prods, tbl),
    ensures
        given_fn(prods, tbl) == nullable_fn(prods),
{
    assert forall|m: N| #[trigger] given_fn(prods, tbl)(m) == nullable_fn(prods)(m) by {
        if head_nullable_given(prods, tbl, m) {
            let i = choose|i: int|
                0 <= i < prods.len() && #[trigger] prods[i].0 == m && rhs_nullable_given(
                    prods,
                    tbl,
                    prods[i].1@,
                );
            lemma_nullable_given_agrees(prods, tbl, prods[i].1@);
            lemma_production_nullable(prods, i);
        }
        if is_nullable(prods, m) {
            let i = lemma_nullable_has_production(prods, m);
            lemma_nullable_given_agrees(prods, tbl, prods[i].1@);
        }
    }
    assert(given_fn(prods, tbl) =~= nullable_fn(prods));
}

// ---------------------------------------------------------------------------
// FIRST sets.
// ---------------------------------------------------------------------------

/// A symbol counts as nullable when `nul` says so of it: the empty string
/// always, a nonterminal `m` when `nul(m)`, a terminal or the end of input never.
pub open spec fn item_nullable_by<N: ItemTrait, T: ItemTrait>(
    nul: spec_fn(N) -> bool,
    item: Item<N, T>,
) -> bool {
    match item {
        Item::Epsilon => true,
        Item::NonTerminal(m) => nul(m),
        _ => false,
    }
}

/// The first `j` symbols of `rhs` count as nullable for `nul`.
pub open spec fn prefix_nullable_by<N: ItemTrait, T: ItemTrait>(
    nul: spec_fn(N) -> bool,
    rhs: Seq<Item<N, T>>,
    j: int,
) -> bool {
    forall|l: int| 0 <= l < j ==> item_nullable_by(nul, #[trigger] rhs[l])
}

/// `t` is in FIRST(`n`), shown by a derivation of depth at most `k`, where
/// `nul` says which nonterminals are nullable: `n` is nullable and `t` is the
/// empty string, or some production of `n` has a body whose symbols before
/// position `j` are all nullable and whose symbol at `j` can begin with `t`.
pub open spec fn first_within<N: ItemTrait, T: ItemTrait>(
    prods: Seq<Production<N, T>>,
    nul: spec_fn(N) -> bool,
    n: N,
    t: Terminal<T>,
    k: nat,
) -> bool
    decreases k,
{
    if k == 0 {
        false
    } else {
        ||| (t == Terminal::<T>::Epsilon && nul(n))
        ||| (t != Terminal::<T>::Epsilon && exists|i: int, j: int|
            0 <= i < prods.len() && prods[i].0 == n && 0 <= j < prods[i].1@.len()
                && prefix_nullable_by(nul, prods[i].1@, j) && match #[trigger] prods[i].1@[j] {
                Item::NonTerminal(m) => first_within(prods, nul, m, t, (k - 1) as nat),
                Item::Terminal(x) => t == Terminal::Terminal(x),
                Item::Epsilon => false,
                Item::EndOfInput => t == Terminal::<T>::EndOfInput,
            })
    }
}

/// `t` can begin a string derived from `item`, within depth `k`.
pub open spec fn item_first_within<N: ItemTrait, T: ItemTrait>(
    prods: Seq<Production<N, T>>,
    nul: spec_fn(N) -> bool,
    item: Item<N, T>,
    t: Terminal<T>,
    k: nat,
) -> bool {
    match item {
        Item::NonTerminal(m) => first_within(prods, nul, m, t, k),
        Item::Terminal(x) => t == Terminal::Terminal(x),
        Item::Epsilon => t == Terminal::<T>::Epsilon,
        Item::EndOfInput => t == Terminal::<T>::EndOfInput,
    }
}

/// `t` is in FIRST(`n`) when `nul` says which nonterminals are nullable.
pub open spec fn in_first_by<N: ItemTrait, T: ItemTrait>(
    prods: Seq<Production<N, T>>,
    nul: spec_fn(N) -> bool,
    n: N,
    t: Terminal<T>,
) -> bool {
    exists|k: nat| first_within(prods, nul, n, t, k)
}

/// Nullability derived from the productions.
pub open spec fn nullable_fn<N: ItemTrait, T: ItemTrait>(prods: Seq<Production<N, T>>) -> spec_fn(
    N,
) -> bool {
    |m: N| is_nullable(prods, m)
}

/// `t` is in FIRST(`n`).
pub open spec fn in_first<N: ItemTrait, T: ItemTrait>(
    prods: Seq<Production<N, T>>,
    n: N,
    t: Terminal<T>,
) -> bool {
    in_first_by(prods, nullable_fn(prods), n, t)
}

/// `t` is listed for key `n` in a FIRST table.
pub open spec fn table_has<N, T: ItemTrait>(tbl: Seq<(N, Vec<Terminal<T>>)>, n: N, t: Terminal<T>) -> bool {
    exists|i: int| 0 <= i < tbl.len() && #[trigger] tbl[i].0 == n && tbl[i].1@.contains(t)
}

/// Keys are distinct, and every key lists a non-empty set of distinct elements.
pub open spec fn first_table_shape<N, T: ItemTrait>(tbl: Seq<(N, Vec<Terminal<T>>)>) -> bool {
    &&& keys_distinct(tbl)
    &&& forall|i: int|
        0 <= i < tbl.len() ==> (#[trigger] tbl[i]).1@.no_duplicates() && tbl[i].1@.len() > 0
}

/// `tbl` lists FIRST(`n`), with nullability as `nul` says, for every
/// nonterminal `n` whose FIRST set is not empty, and lists nothing else.
pub open spec fn first_table_correct_by<N: ItemTrait, T: ItemTrait>(
    prods: Seq<Production<N, T>>,
    nul: spec_fn(N) -> bool,
    tbl: Seq<(N, Vec<Terminal<T>>)>,
) -> bool {
    &&& first_table_shape(tbl)
    &&& forall|n: N, t: Terminal<T>| table_has(tbl, n, t) <==> in_first_by(prods, nul, n, t)
}

/// `tbl` lists FIRST(`n`) for every nonterminal `n` whose FIRST set is not
/// empty, and lists nothing else.
pub open spec fn first_table_correct<N: ItemTrait, T: ItemTrait>(
    prods: Seq<Production<N, T>>,
    tbl: Seq<(N, Vec<Terminal<T>>)>,
) -> bool {
    first_table_correct_by(prods, nullable_fn(prods), tbl)
}

/// Unfolds one step of [`first_within`].
pub proof fn lemma_first_within_unfold<N: ItemTrait, T: ItemTrait>(
    prods: Seq<Production<N, T>>,
    nul: spec_fn(N) -> bool,
    n: N,
    t: Terminal<T>,
    k: nat,
)
    ensures
        first_within(prods, nul, n, t, k + 1) <==> {
            ||| (t == Terminal::<T>::Epsilon && nul(n))
            ||| (t != Terminal::<T>::Epsilon && exists|i: int, j: int|
                0 <= i < prods.len() && prods[i].0 == n && 0 <= j < prods[i].1@.len()
                    && prefix_nullable_by(nul, prods[i].1@, j) && #[trigger] item_first_within(
                    prods,
                    nul,
                    prods[i].1@[j],
                    t,
                    k,
                ))
        },
{
    if t != Terminal::<T>::Epsilon {
        if first_within(prods, nul, n, t, k + 1) {
            let (i, j) = choose|i: int, j: int|
                0 <= i < prods.len() && prods[i].0 == n && 0 <= j < prods[i].1@.len()
                    && prefix_nullable_by(nul, prods[i].1@, j) && match #[trigger] prods[i].1@[j] {
                    Item::NonTerminal(m) => first_within(prods, nul, m, t, k),
                    Item::Terminal(x) => t == Terminal::Terminal(x),
                    Item::Epsilon => false,
                    Item::EndOfInput => t == Terminal::<T>::EndOfInput,
                };
            assert(item_first_within(prods, nul, prods[i].1@[j], t, k));
        }
        if exists|i: int, j: int|
            0 <= i < prods.len() && prods[i].0 == n && 0 <= j < prods[i].1@.len()
                && prefix_nullable_by(nul, prods[i].1@, j) && #[trigger] item_first_within(
                prods,
                nul,
                prods[i].1@[j],
                t,
                k,
            ) {
            let (i, j) = choose|i: int, j: int|
                0 <= i < prods.len() && prods[i].0 == n && 0 <= j < prods[i].1@.len()
                    && prefix_nullable_by(nul, prods[i].1@, j) && #[trigger] item_first_within(
                    prods,
                    nul,
                    prods[i].1@[j],
                    t,
                    k,
                );
            assert(match prods[i].1@[j] {
                Item::NonTerminal(m) => first_within(prods, nul, m, t, k),
                Item::Terminal(x) => t == Terminal::Terminal(x),
                Item::Epsilon => false,
                Item::EndOfInput => t == Terminal::<T>::EndOfInput,
            });
        }
    }
}

/// The empty string is in FIRST(`n`) exactly when `nul` says `n` is nullable.
pub proof fn lemma_epsilon_first_iff_by<N: ItemTrait, T: ItemTrait>(
    prods: Seq<Production<N, T>>,
    nul: spec_fn(N) -> bool,
    n: N,
)
    ensures
        in_first_by(prods, nul, n, Terminal::Epsilon) <==> nul(n),
{
    if in_first_by(prods, nul, n, Terminal::Epsilon) {
        let k = choose|k: nat| first_within(prods, nul, n, Terminal::Epsilon, k);
        lemma_first_within_unfold(prods, nul, n, Terminal::Epsilon, (k - 1) as nat);
    }
    if nul(n) {
        lemma_first_within_unfold(prods, nul, n, Terminal::Epsilon, 0);
        assert(first_within(prods, nul, n, Terminal::Epsilon, 1));
    }
}

/// What a symbol of a body can contribute to FIRST sets, as a terminal;
/// nonterminals contribute nothing directly and are mapped to the empty string.
pub open spec fn item_as_terminal<N: ItemTrait, T: ItemTrait>(item: Item<N, T>) -> Terminal<T> {
    match item {
        Item::Terminal(x) => Terminal::Terminal(x),
        Item::EndOfInput => Terminal::EndOfInput,
        _ => Terminal::Epsilon,
    }
}

/// Every element that can occur in a FIRST set of the grammar (with repeats).
pub open spec fn first_universe<N: ItemTrait, T: ItemTrait>(prods: Seq<Production<N, T>>) -> Seq<
    Terminal<T>,
>
    decreases prods.len(),
{
    if prods.len() == 0 {
        seq![Terminal::Epsilon, Terminal::EndOfInput]
    } else {
        first_universe(prods.drop_last()) + prods.last().1@.map_values(
            |it: Item<N, T>| item_as_terminal(it),
        )
    }
}

proof fn lemma_first_universe_contains<N: ItemTrait, T: ItemTrait>(
    prods: Seq<Production<N, T>>,
    i: int,
    j: int,
)
    requires
        0 <= i < prods.len(),
        0 <= j < prods[i].1@.len(),
    ensures
        first_universe(prods).contains(item_as_terminal(prods[i].1@[j])),
        first_universe(prods).contains(Terminal::Epsilon),
        first_universe(prods).contains(Terminal::EndOfInput),
    decreases prods.len(),
{
    let u = first_universe(prods);
    let init = prods.drop_last();
    let tail = prods.last().1@.map_values(|it: Item<N, T>| item_as_terminal(it));
    if i == prods.len() - 1 {
        assert(u[first_universe(init).len() + j] == tail[j]);
        if init.len() == 0 {
            assert(first_universe(init)[0] == Terminal::<T>::Epsilon);
            assert(first_universe(init)[1] == Terminal::<T>::EndOfInput);
            assert(u[0] == first_universe(init)[0]);
            assert(u[1] == first_universe(init)[1]);
        } else {
            lemma_first_universe_eps(init);
            let a = choose|a: int| 0 <= a < first_universe(init).len() && first_universe(init)[a] == Terminal::<T>::Epsilon;
            let b = choose|b: int| 0 <= b < first_universe(init).len() && first_universe(init)[b] == Terminal::<T>::EndOfInput;
            assert(u[a] == first_universe(init)[a]);
            assert(u[b] == first_universe(init)[b]);
        }
    } else {
        assert(init[i] == prods[i]);
        lemma_first_universe_contains(init, i, j);
        let x = item_as_terminal(prods[i].1@[j]);
        let a = choose|a: int| 0 <= a < first_universe(init).len() && first_universe(init)[a] == x;
        assert(u[a] == x);
        let a = choose|a: int| 0 <= a < first_universe(init).len() && first_universe(init)[a] == Terminal::<T>::Epsilon;
        assert(u[a] == Terminal::<T>::Epsilon);
        let a = choose|a: int| 0 <= a < first_universe(init).len() && first_universe(init)[a] == Terminal::<T>::EndOfInput;
        assert(u[a] == Terminal::<T>::EndOfInput);
    }
}

proof fn lemma_first_universe_eps<N: ItemTrait, T: ItemTrait>(prods: Seq<Production<N, T>>)
    ensures
        first_universe(prods).contains(Terminal::Epsilon),
        first_universe(prods).contains(Terminal::EndOfInput),
    decreases prods.len(),
{
    let u = first_universe(prods);
    if prods.len() == 0 {
        assert(u[0] == Terminal::<T>::Epsilon);
        assert(u[1] == Terminal::<T>::EndOfInput);
    } else {
        let init = prods.drop_last();
        lemma_first_universe_eps(init);
        let a = choose|a: int| 0 <= a < first_universe(init).len() && first_universe(init)[a] == Terminal::<T>::Epsilon;
        assert(u[a] == Terminal::<T>::Epsilon);
        let a = choose|a: int| 0 <= a < first_universe(init).len() && first_universe(init)[a] == Terminal::<T>::EndOfInput;
        assert(u[a] == Terminal::<T>::EndOfInput);
    }
}

proof fn lemma_first_universe_occurs<N: ItemTrait, T: ItemTrait>(
    prods: Seq<Production<N, T>>,
    t: Terminal<T>,
)
    requires
        first_universe(prods).contains(t),
    ensures
        t == Terminal::<T>::Epsilon || t == Terminal::<T>::EndOfInput || exists|i: int, j: int|
            0 <= i < prods.len() && 0 <= j < prods[i].1@.len() && #[trigger] prods[i].1@[j]
                == Item::<N, T>::Terminal(t->0),
    decreases prods.len(),
{
    let u = first_universe(prods);
    let a = choose|a: int| 0 <= a < u.len() && u[a] == t;
    if prods.len() > 0 {
        let init = prods.drop_last();
        let ui = first_universe(init);
        if a < ui.len() {
            assert(ui[a] == t);
            lemma_first_universe_occurs(init, t);
            if !(t == Terminal::<T>::Epsilon || t == Terminal::<T>::EndOfInput) {
                let (i, j) = choose|i: int, j: int|
                    0 <= i < init.len() && 0 <= j < init[i].1@.len() && #[trigger] init[i].1@[j]
                        == Item::<N, T>::Terminal(t->0);
                assert(prods[i] == init[i]);
                assert(prods[i].1@[j] == Item::<N, T>::Terminal(t->0));
            }
        } else {
            let last = prods.len() - 1;
            let j = a - ui.len();
            assert(prods.last() == prods[last]);
            assert(t == item_as_terminal(prods[last].1@[j]));
            if !(t == Terminal::<T>::Epsilon || t == Terminal::<T>::EndOfInput) {
                assert(prods[last].1@[j] == Item::<N, T>::Terminal(t->0));
            }
        }
    }
}

/// Everything in a FIRST set occurs in the grammar, and only heads have
/// non-empty FIRST sets, when only heads count as nullable.
proof fn lemma_first_within_bounded<N: ItemTrait, T: ItemTrait>(
    prods: Seq<Production<N, T>>,
    nul: spec_fn(N) -> bool,
    n: N,
    t: Terminal<T>,
    k: nat,
)
    requires
        forall|m: N| #[trigger] nul(m) ==> is_head(prods, m),
        first_within(prods, nul, n, t, k),
    ensures
        first_universe(prods).contains(t),
        is_head(prods, n),
    decreases k,
{
    lemma_first_within_unfold(prods, nul, n, t, (k - 1) as nat);
    lemma_first_universe_eps(prods);
    if t == Terminal::<T>::Epsilon {
        assert(nul(n));
    } else {
        let (i, j) = choose|i: int, j: int|
            0 <= i < prods.len() && prods[i].0 == n && 0 <= j < prods[i].1@.len()
                && prefix_nullable_by(nul, prods[i].1@, j) && #[trigger] item_first_within(
                prods,
                nul,
                prods[i].1@[j],
                t,
                (k - 1) as nat,
            );
        assert(prods[i].0 == n);
        match prods[i].1@[j] {
            Item::NonTerminal(m) => {
                lemma_first_within_bounded(prods, nul, m, t, (k - 1) as nat);
            },
            _ => {
                lemma_first_universe_contains(prods, i, j);
            },
        }
    }
}

/// Sum of the lengths of the sets of a FIRST table.
pub open spec fn total_listed<N, T: ItemTrait>(tbl: Seq<(N, Vec<Terminal<T>>)>) -> nat
    decreases tbl.len(),
{
    if tbl.len() == 0 {
        0
    } else {
        total_listed(tbl.drop_last()) + tbl.last().1@.len()
    }
}

proof fn lemma_total_listed_update<N, T: ItemTrait>(
    tbl: Seq<(N, Vec<Terminal<T>>)>,
    i: int,
    e: (N, Vec<Terminal<T>>),
)
    requires
        0 <= i < tbl.len(),
    ensures
        total_listed(tbl.update(i, e)) + tbl[i].1@.len() == total_listed(tbl) + e.1@.len(),
    decreases tbl.len(),
{
    let t2 = tbl.update(i, e);
    if i == tbl.len() - 1 {
        assert(t2.drop_last() == tbl.drop_last());
    } else {
        assert(t2.drop_last() == tbl.drop_last().update(i, e));
        lemma_total_listed_update(tbl.drop_last(), i, e);
    }
}

proof fn lemma_total_listed_bound<N, T: ItemTrait>(tbl: Seq<(N, Vec<Terminal<T>>)>, u: nat)
    requires
        forall|i: int| 0 <= i < tbl.len() ==> (#[trigger] tbl[i]).1@.len() <= u,
    ensures
        total_listed(tbl) <= tbl.len() * u,
    decreases tbl.len(),
{
    if tbl.len() > 0 {
        let init = tbl.drop_last();
        assert forall|i: int| 0 <= i < init.len() implies (#[trigger] init[i]).1@.len() <= u by {
            assert(init[i] == tbl[i]);
        }
        lemma_total_listed_bound(init, u);
        assert(tbl.last() == tbl[tbl.len() - 1]);
        let l = tbl.len();
        assert((l - 1) * u + u == l * u) by (nonlinear_arith);
    }
}

/// A sequence without repeats drawn from `univ` is no longer than `univ`.
proof fn lemma_distinct_len_bound<A>(s: Seq<A>, univ: Seq<A>)
    requires
        s.no_duplicates(),
        forall|i: int| 0 <= i < s.len() ==> univ.contains(#[trigger] s[i]),
    ensures
        s.len() <= univ.len(),
{
    broadcast use vstd::seq_lib::seq_to_set_is_finite;

    s.unique_seq_to_set();
    univ.lemma_cardinality_of_set();
    assert(s.to_set().subset_of(univ.to_set())) by {
        assert forall|a: A| s.to_set().contains(a) implies univ.to_set().contains(a) by {
            let i = choose|i: int| 0 <= i < s.len() && s[i] == a;
            assert(univ.contains(s[i]));
        }
    }
    vstd::set_lib::lemma_len_subset(s.to_set(), univ.to_set());
}

/// Every key of a FIRST table is a head, and every listed element can occur
/// in a FIRST set of the grammar.
pub open spec fn first_table_bounded<N: ItemTrait, T: ItemTrait>(
    prods: Seq<Production<N, T>>,
    tbl: Seq<(N, Vec<Terminal<T>>)>,
) -> bool {
    forall|n: N, t: Terminal<T>|
        table_has(tbl, n, t) ==> is_head(prods, n) && first_universe(prods).contains(t)
}

/// The number of listed elements of a bounded FIRST table is bounded by the grammar.
proof fn lemma_first_table_bound<N: ItemTrait, T: ItemTrait>(
    prods: Seq<Production<N, T>>,
    tbl: Seq<(N, Vec<Terminal<T>>)>,
)
    requires
        first_table_shape(tbl),
        first_table_bounded(prods, tbl),
    ensures
        total_listed(tbl) <= prods.len() * first_universe(prods).len(),
{
    let u = first_universe(prods);
    assert forall|i: int| 0 <= i < tbl.len() implies (#[trigger] tbl[i]).1@.len() <= u.len() by {
        assert forall|a: int| 0 <= a < tbl[i].1@.len() implies u.contains(#[trigger] tbl[i].1@[a]) by {
            assert(table_has(tbl, tbl[i].0, tbl[i].1@[a]));
        }
        lemma_distinct_len_bound(tbl[i].1@, u);
    }
    lemma_total_listed_bound(tbl, u.len());
    let keys = tbl.map_values(|e: (N, Vec<Terminal<T>>)| e.0);
    let heads = prods.map_values(|p: Production<N, T>| p.0);
    assert forall|i: int| 0 <= i < keys.len() implies heads.contains(#[trigger] keys[i]) by {
        assert(tbl[i].1@.len() > 0);
        assert(table_has(tbl, tbl[i].0, tbl[i].1@[0]));
        let p = choose|p: int| 0 <= p < prods.len() && #[trigger] prods[p].0 == tbl[i].0;
        assert(heads[p] == keys[i]);
    }
    assert(keys.no_duplicates()) by {
        assert forall|a: int, b: int| 0 <= a < keys.len() && 0 <= b < keys.len() && a != b implies keys[a] != keys[b] by {
            if a < b {
                assert(tbl[a].0 != tbl[b].0);
            } else {
                assert(tbl[b].0 != tbl[a].0);
            }
        }
    }
    lemma_distinct_len_bound(keys, heads);
    let l = tbl.len();
    let p = prods.len();
    let ul = u.len();
    assert(l <= p ==> l * ul <= p * ul) by (nonlinear_arith);
}

/// `t` can begin a string derived from `item`, according to the FIRST table `tbl`.
pub open spec fn item_first_in<N: ItemTrait, T: ItemTrait>(
    tbl: Seq<(N, Vec<Terminal<T>>)>,
    item: Item<N, T>,
    t: Terminal<T>,
) -> bool {
    match item {
        Item::NonTerminal(m) => table_has(tbl, m, t),
        Item::Terminal(x) => t == Terminal::Terminal(x),
        Item::Epsilon => t == Terminal::<T>::Epsilon,
        Item::EndOfInput => t == Terminal::<T>::EndOfInput,
    }
}

/// The first `j` symbols of `rhs` are nullable according to the FIRST table `tbl`.
pub open spec fn prefix_first_nullable<N: ItemTrait, T: ItemTrait>(
    tbl: Seq<(N, Vec<Terminal<T>>)>,
    rhs: Seq<Item<N, T>>,
    j: int,
) -> bool {
    forall|l: int| 0 <= l < j ==> item_first_in(tbl, #[trigger] rhs[l], Terminal::<T>::Epsilon)
}

/// Production `p` adds no element other than the empty string to the FIRST table `tbl`.
pub open spec fn production_closed<N: ItemTrait, T: ItemTrait>(
    prods: Seq<Production<N, T>>,
    tbl: Seq<(N, Vec<Terminal<T>>)>,
    p: int,
) -> bool {
    forall|j: int, t: Terminal<T>|
        0 <= j < prods[p].1@.len() && prefix_first_nullable(tbl, prods[p].1@, j)
            && #[trigger] item_first_in(tbl, prods[p].1@[j], t) && t != Terminal::<T>::Epsilon
            ==> table_has(tbl, prods[p].0, t)
}

/// Production `p` adds nothing to the FIRST table `tbl`: no element through
/// its body, and not the empty string when its body is nullable in the sense
/// of [`rhs_nullable_given`] with the table `nullables`.
pub open spec fn production_done<N: ItemTrait, T: ItemTrait>(
    prods: Seq<Production<N, T>>,
    nullables: Seq<(N, bool)>,
    tbl: Seq<(N, Vec<Terminal<T>>)>,
    p: int,
) -> bool {
    &&& production_closed(prods, tbl, p)
    &&& rhs_nullable_given(prods, nullables, prods[p].1@) ==> table_has(
        tbl,
        prods[p].0,
        Terminal::<T>::Epsilon,
    )
}

/// A FIRST table that lists the empty string for every nonterminal that
/// `nul` calls nullable, and that no production can extend, lists all of
/// every FIRST set.
proof fn lemma_first_table_complete<N: ItemTrait, T: ItemTrait>(
    prods: Seq<Production<N, T>>,
    nul: spec_fn(N) -> bool,
    tbl: Seq<(N, Vec<Terminal<T>>)>,
    n: N,
    t: Terminal<T>,
    k: nat,
)
    requires
        forall|m: N| #[trigger] nul(m) ==> table_has(tbl, m, Terminal::<T>::Epsilon),
        forall|p: int| 0 <= p < prods.len() ==> #[trigger] production_closed(prods, tbl, p),
        first_within(prods, nul, n, t, k),
    ensures
        table_has(tbl, n, t),
    decreases k,
{
    lemma_first_within_unfold(prods, nul, n, t, (k - 1) as nat);
    if t == Terminal::<T>::Epsilon {
        assert(nul(n));
    } else {
        let (i, j) = choose|i: int, j: int|
            0 <= i < prods.len() && prods[i].0 == n && 0 <= j < prods[i].1@.len()
                && prefix_nullable_by(nul, prods[i].1@, j) && #[trigger] item_first_within(
                prods,
                nul,
                prods[i].1@[j],
                t,
                (k - 1) as nat,
            );
        let rhs = prods[i].1@;
        assert forall|l: int| 0 <= l < j implies item_first_in(tbl, #[trigger] rhs[l], Terminal::<T>::Epsilon) by {
            assert(item_nullable_by(nul, rhs[l]));
            if let Item::NonTerminal(m) = rhs[l] {
                assert(nul(m));
            }
        }
        if let Item::NonTerminal(m) = rhs[j] {
            lemma_first_table_complete(prods, nul, tbl, m, t, (k - 1) as nat);
        }
        assert(item_first_in(tbl, rhs[j], t));
        assert(production_closed(prods, tbl, i));
    }
}

/// Tells whether `t` occurs in `ts`.
fn terminals_contain<T: ItemTrait>(ts: &Vec<Terminal<T>>, t: &Terminal<T>) -> (r: bool)
    requires
        symbol_laws::<T>(),
    ensures
        r == ts@.contains(*t),
{
    for i in 0..ts.len()
        invariant
            symbol_laws::<T>(),
            forall|j: int| 0 <= j < i ==> ts@[j] != *t,
    {
        if terminal_eq(&ts[i], t) {
            return true;
        }
    }
    false
}

/// Copies a set of FIRST elements.
fn terminals_clone<T: ItemTrait>(ts: &Vec<Terminal<T>>) -> (r: Vec<Terminal<T>>)
    requires
        symbol_laws::<T>(),
    ensures
        r@ == ts@,
{
    let mut r: Vec<Terminal<T>> = Vec::new();
    for i in 0..ts.len()
        invariant
            symbol_laws::<T>(),
            r@ == ts@.take(i as int),
    {
        r.push(terminal_clone(&ts[i]));
        assert(ts@.take(i + 1) == ts@.take(i as int).push(ts@[i as int]));
    }
    assert(ts@.take(ts@.len() as int) == ts@);
    r
}

/// What the FIRST table lists for `n`; nothing when `n` is not a key.
fn first_lookup<N: ItemTrait, T: ItemTrait>(
    result: &Vec<(N, Vec<Terminal<T>>)>,
    n: &N,
) -> (r: Vec<Terminal<T>>)
    requires
        grammar_laws::<N, T>(),
        keys_distinct(result@),
    ensures
        forall|t: Terminal<T>| r@.contains(t) <==> table_has(result@, *n, t),
{
    match find_key(result, n) {
        Some(i) => {
            let r = terminals_clone(&result[i].1);
            proof {
                assert forall|t: Terminal<T>| table_has(result@, *n, t) implies r@.contains(t) by {
                    let i2 = choose|i2: int| 0 <= i2 < result@.len() && #[trigger] result@[i2].0 == *n
                        && result@[i2].1@.contains(t);
                    assert(i2 == i as int);
                }
            }
            r
        },
        None => Vec::new(),
    }
}

/// Adds `t` to the set listed for `n`, making `n` a key if it is not one.
/// Tells whether the table changed.
fn insert_first<N: ItemTrait, T: ItemTrait>(
    result: &mut Vec<(N, Vec<Terminal<T>>)>,
    n: &N,
    t: Terminal<T>,
) -> (added: bool)
    requires
        grammar_laws::<N, T>(),
        first_table_shape(old(result)@),
    ensures
        first_table_shape(final(result)@),
        added == !table_has(old(result)@, *n, t),
        !added ==> final(result)@ == old(result)@,
        added ==> total_listed(final(result)@) == total_listed(old(result)@) + 1,
        forall|n2: N, t2: Terminal<T>|
            table_has(final(result)@, n2, t2) <==> (table_has(old(result)@, n2, t2) || (n2 == *n
                && t2 == t)),
{
    let ghost old_tbl = result@;
    match find_key(result, n) {
        Some(i) => {
            if terminals_contain(&result[i].1, &t) {
                false
            } else {
                proof {
                    if table_has(old_tbl, *n, t) {
                        let i2 = choose|i2: int| 0 <= i2 < old_tbl.len() && #[trigger] old_tbl[i2].0 == *n
                            && old_tbl[i2].1@.contains(t);
                        assert(i2 == i as int);
                    }
                }
                result[i].1.push(t);
                proof {
                    let e = result@[i as int];
                    assert(e.1@ == old_tbl[i as int].1@.push(t));
                    assert(e.0 == *n);
                    assert(result@ == old_tbl.update(i as int, e));
                    lemma_total_listed_update(old_tbl, i as int, e);
                    assert forall|n2: N, t2: Terminal<T>|
                        table_has(result@, n2, t2) <==> (table_has(old_tbl, n2, t2) || (n2 == *n
                            && t2 == t)) by {
                        if table_has(result@, n2, t2) {
                            let a = choose|a: int| 0 <= a < result@.len() && #[trigger] result@[a].0 == n2
                                && result@[a].1@.contains(t2);
                            if a != i {
                                assert(old_tbl[a] == result@[a]);
                                assert(table_has(old_tbl, n2, t2));
                            } else if t2 != t {
                                let b = choose|b: int| 0 <= b < result@[a].1@.len() && result@[a].1@[b] == t2;
                                assert(old_tbl[a].1@[b] == t2);
                                assert(old_tbl[a].1@.contains(t2));
                                assert(table_has(old_tbl, n2, t2));
                            }
                        }
                        if table_has(old_tbl, n2, t2) {
                            let a = choose|a: int| 0 <= a < old_tbl.len() && #[trigger] old_tbl[a].0 == n2
                                && old_tbl[a].1@.contains(t2);
                            let b = choose|b: int| 0 <= b < old_tbl[a].1@.len() && old_tbl[a].1@[b] == t2;
                            assert(result@[a].1@[b] == t2);
                            assert(result@[a].1@.contains(t2));
                            assert(table_has(result@, n2, t2));
                        }
                        if n2 == *n && t2 == t {
                            let last = result@[i as int].1@.len() - 1;
                            assert(result@[i as int].1@[last] == t);
                            assert(result@[i as int].1@.contains(t));
                            assert(table_has(result@, n2, t2));
                        }
                    }
                    assert forall|a: int| 0 <= a < result@.len() implies (#[trigger] result@[a]).1@.no_duplicates()
                        && result@[a].1@.len() > 0 by {
                        if a != i {
                            assert(old_tbl[a] == result@[a]);
                        }
                    }
                }
                true
            }
        },
        None => {
            let mut ts: Vec<Terminal<T>> = Vec::new();
            ts.push(t);
            result.push((symbol_clone(n), ts));
            proof {
                assert(result@.drop_last() == old_tbl);
                assert forall|n2: N, t2: Terminal<T>|
                    table_has(result@, n2, t2) <==> (table_has(old_tbl, n2, t2) || (n2 == *n
                        && t2 == t)) by {
                    if table_has(result@, n2, t2) {
                        let a = choose|a: int| 0 <= a < result@.len() && #[trigger] result@[a].0 == n2
                            && result@[a].1@.contains(t2);
                        if a < old_tbl.len() {
                            assert(old_tbl[a] == result@[a]);
                            assert(table_has(old_tbl, n2, t2));
                        } else {
                            assert(result@[a].1@ == seq![t]);
                            let b = choose|b: int| 0 <= b < result@[a].1@.len() && result@[a].1@[b] == t2;
                            assert(t2 == t);
                        }
                    }
                    if table_has(old_tbl, n2, t2) {
                        let a = choose|a: int| 0 <= a < old_tbl.len() && #[trigger] old_tbl[a].0 == n2
                            && old_tbl[a].1@.contains(t2);
                        assert(result@[a] == old_tbl[a]);
                        assert(table_has(result@, n2, t2));
                    }
                    if n2 == *n && t2 == t {
                        let a = old_tbl.len() as int;
                        assert(result@[a].1@[0] == t);
                        assert(result@[a].1@.contains(t));
                        assert(result@[a].0 == n2);
                        assert(table_has(result@, n2, t2));
                    }
                }
                assert forall|a: int, b: int| 0 <= a < b < result@.len() implies result@[a].0 != result@[b].0 by {
                    if b < old_tbl.len() {
                        assert(old_tbl[a] == result@[a]);
                        assert(old_tbl[b] == result@[b]);
                    } else {
                        assert(old_tbl[a] == result@[a]);
                        assert(has_key(old_tbl, result@[a].0));
                    }
                }
                assert forall|a: int| 0 <= a < result@.len() implies (#[trigger] result@[a]).1@.no_duplicates()
                    && result@[a].1@.len() > 0 by {
                    if a < old_tbl.len() {
                        assert(old_tbl[a] == result@[a]);
                    }
                }
            }
            true
        },
    }
}

// ---------------------------------------------------------------------------
// Laws relating the two tables and the productions.
// ---------------------------------------------------------------------------

/// The empty string is in FIRST(`n`) exactly when `n` is nullable.
pub proof fn lemma_epsilon_first_iff_nullable<N: ItemTrait, T: ItemTrait>(
    prods: Seq<Production<N, T>>,
    n: N,
)
    ensures
        in_first(prods, n, Terminal::Epsilon) <==> is_nullable(prods, n),
{
    lemma_epsilon_first_iff_by(prods, nullable_fn(prods), n);
}

/// Only heads are nullable.
proof fn lemma_nullable_only_heads<N: ItemTrait, T: ItemTrait>(prods: Seq<Production<N, T>>)
    ensures
        forall|m: N| #[trigger] nullable_fn(prods)(m) ==> is_head(prods, m),
{
    assert forall|m: N| #[trigger] nullable_fn(prods)(m) implies is_head(prods, m) by {
        let i = lemma_nullable_has_production(prods, m);
        assert(prods[i].0 == m);
    }
}

/// A nonterminal is marked nullable exactly when its FIRST set holds the
/// empty string.
pub proof fn lemma_nullable_iff_first_has_epsilon<N: ItemTrait, T: ItemTrait>(
    prods: Seq<Production<N, T>>,
    nullable: Seq<(N, bool)>,
    first: Seq<(N, Vec<Terminal<T>>)>,
    n: N,
)
    requires
        nullable_table_correct(prods, nullable),
        first_table_correct(prods, first),
    ensures
        table_says_nullable(nullable, n) <==> table_has(first, n, Terminal::Epsilon),
{
    lemma_epsilon_first_iff_nullable(prods, n);
    if table_says_nullable(nullable, n) {
        let e = choose|e: int| 0 <= e < nullable.len() && #[trigger] nullable[e].0 == n && nullable[e].1;
    }
    if is_nullable(prods, n) {
        let p = lemma_nullable_has_production(prods, n);
        assert(is_head(prods, n));
        assert(has_key(nullable, n));
        let e = choose|e: int| 0 <= e < nullable.len() && #[trigger] nullable[e].0 == n;
        assert(nullable[e].1);
    }
}

/// Only heads of productions are keys of a correct FIRST table, and every
/// element of a FIRST set is the empty string, the end of input, or a
/// terminal that occurs in some body.
pub proof fn lemma_first_elements_occur<N: ItemTrait, T: ItemTrait>(
    prods: Seq<Production<N, T>>,
    first: Seq<(N, Vec<Terminal<T>>)>,
    n: N,
    t: Terminal<T>,
)
    requires
        first_table_correct(prods, first),
        table_has(first, n, t),
    ensures
        is_head(prods, n),
        t == Terminal::<T>::Epsilon || t == Terminal::<T>::EndOfInput || exists|i: int, j: int|
            0 <= i < prods.len() && 0 <= j < prods[i].1@.len() && #[trigger] prods[i].1@[j]
                == Item::<N, T>::Terminal(t->0),
{
    let k = choose|k: nat| first_within(prods, nullable_fn(prods), n, t, k);
    lemma_nullable_only_heads(prods);
    lemma_first_within_bounded(prods, nullable_fn(prods), n, t, k);
    lemma_first_universe_occurs(prods, t);
}

/// FIRST looks through any number of nullable symbols: when the symbols of
/// a body before position `j` are all nullable (the empty string, or a
/// nonterminal that `nul` calls nullable) and the symbol at `j` can begin
/// with `t` (a terminal or the end of input equal to `t`, or a nonterminal
/// whose FIRST set lists `t`), then `t`, unless it is the empty string, is in
/// FIRST of the head.
pub proof fn lemma_first_sees_through_nullable_prefix<N: ItemTrait, T: ItemTrait>(
    prods: Seq<Production<N, T>>,
    nul: spec_fn(N) -> bool,
    tbl: Seq<(N, Vec<Terminal<T>>)>,
    p: int,
    j: int,
    t: Terminal<T>,
)
    requires
        first_table_correct_by(prods, nul, tbl),
        0 <= p < prods.len(),
        0 <= j < prods[p].1@.len(),
        forall|l: int|
            0 <= l < j ==> match #[trigger] prods[p].1@[l] {
                Item::Epsilon => true,
                Item::NonTerminal(m) => nul(m),
                _ => false,
            },
        t != Terminal::<T>::Epsilon,
        match prods[p].1@[j] {
            Item::NonTerminal(m) => table_has(tbl, m, t),
            Item::Terminal(x) => t == Terminal::Terminal(x),
            Item::EndOfInput => t == Terminal::<T>::EndOfInput,
            Item::Epsilon => false,
        },
    ensures
        table_has(tbl, prods[p].0, t),
{
    let rhs = prods[p].1@;
    assert forall|l: int| 0 <= l < j implies item_nullable_by(nul, #[trigger] rhs[l]) by {
        assert(match rhs[l] {
            Item::Epsilon => true,
            Item::NonTerminal(m) => nul(m),
            _ => false,
        });
    }
    assert(prefix_nullable_by(nul, rhs, j));
    let k: nat = match rhs[j] {
        Item::NonTerminal(m) => choose|k: nat| first_within(prods, nul, m, t, k),
        _ => 0,
    };
    assert(item_first_within(prods, nul, rhs[j], t, k));
    lemma_first_within_unfold(prods, nul, prods[p].0, t, k);
    assert(first_within(prods, nul, prods[p].0, t, k + 1));
}

/// Every element of a FIRST set other than the empty string comes from a
/// production of its nonterminal: from the symbol at some position `j` of its
/// body, all symbols before which are nullable for `nul`, and which is that
/// terminal or end of input, or a nonterminal whose FIRST set lists it. The
/// empty string is listed exactly for the nonterminals that `nul` calls
/// nullable.
pub proof fn lemma_first_elements_have_a_source<N: ItemTrait, T: ItemTrait>(
    prods: Seq<Production<N, T>>,
    nul: spec_fn(N) -> bool,
    tbl: Seq<(N, Vec<Terminal<T>>)>,
    n: N,
    t: Terminal<T>,
)
    requires
        first_table_correct_by(prods, nul, tbl),
    ensures
        table_has(tbl, n, Terminal::<T>::Epsilon) <==> nul(n),
        table_has(tbl, n, t) && t != Terminal::<T>::Epsilon ==> exists|p: int, j: int|
            0 <= p < prods.len() && prods[p].0 == n && 0 <= j < prods[p].1@.len() && (forall|l: int|
                0 <= l < j ==> match #[trigger] prods[p].1@[l] {
                    Item::Epsilon => true,
                    Item::NonTerminal(m) => nul(m),
                    _ => false,
                }) && match #[trigger] prods[p].1@[j] {
                Item::NonTerminal(m) => table_has(tbl, m, t),
                Item::Terminal(x) => t == Terminal::Terminal(x),
                Item::EndOfInput => t == Terminal::<T>::EndOfInput,
                Item::Epsilon => false,
            },
{
    lemma_epsilon_first_iff_by(prods, nul, n);
    if table_has(tbl, n, t) && t != Terminal::<T>::Epsilon {
        let k = choose|k: nat| first_within(prods, nul, n, t, k);
        assert(k > 0);
        lemma_first_within_unfold(prods, nul, n, t, (k - 1) as nat);
        let (p, j) = choose|p: int, j: int|
            0 <= p < prods.len() && prods[p].0 == n && 0 <= j < prods[p].1@.len()
                && prefix_nullable_by(nul, prods[p].1@, j) && #[trigger] item_first_within(
                prods,
                nul,
                prods[p].1@[j],
                t,
                (k - 1) as nat,
            );
        let rhs = prods[p].1@;
        assert forall|l: int| 0 <= l < j implies match #[trigger] rhs[l] {
            Item::Epsilon => true,
            Item::NonTerminal(m) => nul(m),
            _ => false,
        } by {
            assert(item_nullable_by(nul, rhs[l]));
        }
        match rhs[j] {
            Item::NonTerminal(m) => {
                assert(first_within(prods, nul, m, t, (k - 1) as nat));
                assert(in_first_by(prods, nul, m, t));
            },
            _ => {},
        }
    }
}

/// A head one of whose bodies consists of nullable symbols only (the empty
/// string, or nullable nonterminals), however long, is marked nullable; and
/// every nonterminal marked nullable heads such a body.
pub proof fn lemma_nullable_table_law<N: ItemTrait, T: ItemTrait>(
    prods: Seq<Production<N, T>>,
    tbl: Seq<(N, bool)>,
    p: int,
    n: N,
)
    requires
        nullable_table_correct(prods, tbl),
        0 <= p < prods.len(),
    ensures
        (forall|l: int|
            0 <= l < prods[p].1@.len() ==> match #[trigger] prods[p].1@[l] {
                Item::Epsilon => true,
                Item::NonTerminal(m) => is_nullable(prods, m),
                _ => false,
            }) ==> table_says_nullable(tbl, prods[p].0),
        table_says_nullable(tbl, n) ==> exists|q: int|
            0 <= q < prods.len() && #[trigger] prods[q].0 == n && forall|l: int|
                0 <= l < prods[q].1@.len() ==> match #[trigger] prods[q].1@[l] {
                    Item::Epsilon => true,
                    Item::NonTerminal(m) => is_nullable(prods, m),
                    _ => false,
                },
{
    let rhs = prods[p].1@;
    if forall|l: int|
        0 <= l < rhs.len() ==> match #[trigger] rhs[l] {
            Item::Epsilon => true,
            Item::NonTerminal(m) => is_nullable(prods, m),
            _ => false,
        } {
        assert forall|l: int| 0 <= l < rhs.len() implies item_is_nullable(prods, #[trigger] rhs[l]) by {
            assert(match rhs[l] {
                Item::Epsilon => true,
                Item::NonTerminal(m) => is_nullable(prods, m),
                _ => false,
            });
        }
        assert(rhs_is_nullable(prods, rhs));
        lemma_production_nullable(prods, p);
        assert(is_head(prods, prods[p].0));
        assert(has_key(tbl, prods[p].0));
        let e = choose|e: int| 0 <= e < tbl.len() && #[trigger] tbl[e].0 == prods[p].0;
        assert(tbl[e].1);
    }
    if table_says_nullable(tbl, n) {
        let e = choose|e: int| 0 <= e < tbl.len() && #[trigger] tbl[e].0 == n && tbl[e].1;
        assert(is_nullable(prods, n));
        let q = lemma_nullable_has_production(prods, n);
        let body = prods[q].1@;
        assert forall|l: int| 0 <= l < body.len() implies match #[trigger] body[l] {
            Item::Epsilon => true,
            Item::NonTerminal(m) => is_nullable(prods, m),
            _ => false,
        } by {
            assert(item_is_nullable(prods, body[l]));
        }
    }
}

/// Induction step of [`lemma_first_table_least`]: a derivation of depth `k`
/// is followed by any closed table.
proof fn lemma_first_within_in_closed<N: ItemTrait, T: ItemTrait>(
    prods: Seq<Production<N, T>>,
    nul: spec_fn(N) -> bool,
    other: Seq<(N, Vec<Terminal<T>>)>,
    n: N,
    t: Terminal<T>,
    k: nat,
)
    requires
        forall|m: N| #[trigger] nul(m) ==> table_has(other, m, Terminal::<T>::Epsilon),
        forall|p: int, j: int, u: Terminal<T>|
            #![trigger prods[p].1@[j], table_has(other, prods[p].0, u)]
            0 <= p < prods.len() && 0 <= j < prods[p].1@.len() && (forall|l: int|
                0 <= l < j ==> match #[trigger] prods[p].1@[l] {
                    Item::Epsilon => true,
                    Item::NonTerminal(m) => nul(m),
                    _ => false,
                }) && u != Terminal::<T>::Epsilon && match prods[p].1@[j] {
                Item::NonTerminal(m) => table_has(other, m, u),
                Item::Terminal(x) => u == Terminal::Terminal(x),
                Item::EndOfInput => u == Terminal::<T>::EndOfInput,
                Item::Epsilon => false,
            } ==> table_has(other, prods[p].0, u),
        first_within(prods, nul, n, t, k),
    ensures
        table_has(other, n, t),
    decreases k,
{
    lemma_first_within_unfold(prods, nul, n, t, (k - 1) as nat);
    if t != Terminal::<T>::Epsilon {
        let (p, j) = choose|p: int, j: int|
            0 <= p < prods.len() && prods[p].0 == n && 0 <= j < prods[p].1@.len()
                && prefix_nullable_by(nul, prods[p].1@, j) && #[trigger] item_first_within(
                prods,
                nul,
                prods[p].1@[j],
                t,
                (k - 1) as nat,
            );
        let rhs = prods[p].1@;
        assert forall|l: int| 0 <= l < j implies match #[trigger] rhs[l] {
            Item::Epsilon => true,
            Item::NonTerminal(m) => nul(m),
            _ => false,
        } by {
            assert(item_nullable_by(nul, rhs[l]));
        }
        match rhs[j] {
            Item::NonTerminal(m) => {
                lemma_first_within_in_closed(prods, nul, other, m, t, (k - 1) as nat);
            },
            _ => {},
        }
        assert(table_has(other, prods[p].0, t));
    }
}

/// FIRST sets are the least ones that follow the rules: any table that lists
/// the empty string for every nonterminal that `nul` calls nullable, and
/// lists for the head of every production every element other than the
/// empty string that can begin the symbol after a nullable prefix of its
/// body, lists every element of the FIRST sets.
pub proof fn lemma_first_table_least<N: ItemTrait, T: ItemTrait>(
    prods: Seq<Production<N, T>>,
    nul: spec_fn(N) -> bool,
    tbl: Seq<(N, Vec<Terminal<T>>)>,
    other: Seq<(N, Vec<Terminal<T>>)>,
    n: N,
    t: Terminal<T>,
)
    requires
        first_table_correct_by(prods, nul, tbl),
        forall|m: N| #[trigger] nul(m) ==> table_has(other, m, Terminal::<T>::Epsilon),
        forall|p: int, j: int, u: Terminal<T>|
            #![trigger prods[p].1@[j], table_has(other, prods[p].0, u)]
            0 <= p < prods.len() && 0 <= j < prods[p].1@.len() && (forall|l: int|
                0 <= l < j ==> match #[trigger] prods[p].1@[l] {
                    Item::Epsilon => true,
                    Item::NonTerminal(m) => nul(m),
                    _ => false,
                }) && u != Terminal::<T>::Epsilon && match prods[p].1@[j] {
                Item::NonTerminal(m) => table_has(other, m, u),
                Item::Terminal(x) => u == Terminal::Terminal(x),
                Item::EndOfInput => u == Terminal::<T>::EndOfInput,
                Item::Epsilon => false,
            } ==> table_has(other, prods[p].0, u),
        table_has(tbl, n, t),
    ensures
        table_has(other, n, t),
{
    let k = choose|k: nat| first_within(prods, nul, n, t, k);
    lemma_first_within_in_closed(prods, nul, other, n, t, k);
}

/// Induction step of [`lemma_nullable_least`].
proof fn lemma_nullable_within_in_closed<N: ItemTrait, T: ItemTrait>(
    prods: Seq<Production<N, T>>,
    closed: spec_fn(N) -> bool,
    n: N,
    k: nat,
)
    requires
        forall|p: int|
            0 <= p < prods.len() && (forall|l: int|
                0 <= l < prods[p].1@.len() ==> match #[trigger] prods[p].1@[l] {
                    Item::Epsilon => true,
                    Item::NonTerminal(m) => closed(m),
                    _ => false,
                }) ==> closed(#[trigger] prods[p].0),
        nullable_within(prods, n, k),
    ensures
        closed(n),
    decreases k,
{
    lemma_nullable_within_unfold(prods, n, (k - 1) as nat);
    let p = choose|p: int|
        0 <= p < prods.len() && prods[p].0 == n && #[trigger] rhs_nullable_within(
            prods,
            prods[p].1@,
            (k - 1) as nat,
        );
    let rhs = prods[p].1@;
    assert forall|l: int| 0 <= l < rhs.len() implies match #[trigger] rhs[l] {
        Item::Epsilon => true,
        Item::NonTerminal(m) => closed(m),
        _ => false,
    } by {
        assert(item_nullable_within(prods, rhs[l], (k - 1) as nat));
        match rhs[l] {
            Item::NonTerminal(m) => {
                lemma_nullable_within_in_closed(prods, closed, m, (k - 1) as nat);
            },
            _ => {},
        }
    }
    assert(closed(prods[p].0));
}

/// The nullable nonterminals are the least set closed under the productions:
/// any set that holds the head of every production whose body consists of
/// the empty string and members of the set only holds every nonterminal that
/// the table marks nullable.
pub proof fn lemma_nullable_least<N: ItemTrait, T: ItemTrait>(
    prods: Seq<Production<N, T>>,
    tbl: Seq<(N, bool)>,
    closed: spec_fn(N) -> bool,
    n: N,
)
    requires
        nullable_table_correct(prods, tbl),
        forall|p: int|
            0 <= p < prods.len() && (forall|l: int|
                0 <= l < prods[p].1@.len() ==> match #[trigger] prods[p].1@[l] {
                    Item::Epsilon => true,
                    Item::NonTerminal(m) => closed(m),
                    _ => false,
                }) ==> closed(#[trigger] prods[p].0),
        table_says_nullable(tbl, n),
    ensures
        closed(n),
{
    let e = choose|e: int| 0 <= e < tbl.len() && #[trigger] tbl[e].0 == n && tbl[e].1;
    assert(is_nullable(prods, n));
    let k = choose|k: nat| nullable_within(prods, n, k);
    lemma_nullable_within_in_closed(prods, closed, n, k);
}

/// The head and body of a production.
pub open spec fn production_view<N: ItemTrait, T: ItemTrait>(p: Production<N, T>) -> (N, Seq<Item<N, T>>) {
    (p.0, p.1@)
}

/// `prods` has a production with the head and body of `q`.
pub open spec fn has_production<N: ItemTrait, T: ItemTrait>(
    prods: Seq<Production<N, T>>,
    q: Production<N, T>,
) -> bool {
    exists|j: int| 0 <= j < prods.len() && production_view(#[trigger] prods[j]) == production_view(q)
}

/// Every production of `p1` is also one of `p2`.
pub open spec fn productions_included<N: ItemTrait, T: ItemTrait>(
    p1: Seq<Production<N, T>>,
    p2: Seq<Production<N, T>>,
) -> bool {
    forall|i: int| 0 <= i < p1.len() ==> has_production(p2, #[trigger] p1[i])
}

/// `prods` has no production twice.
pub open spec fn productions_distinct<N: ItemTrait, T: ItemTrait>(prods: Seq<Production<N, T>>) -> bool {
    forall|i: int, j: int|
        0 <= i < j < prods.len() ==> production_view(prods[i]) != production_view(prods[j])
}

proof fn lemma_nullable_within_included<N: ItemTrait, T: ItemTrait>(
    p1: Seq<Production<N, T>>,
    p2: Seq<Production<N, T>>,
    n: N,
    k: nat,
)
    requires
        productions_included(p1, p2),
        nullable_within(p1, n, k),
    ensures
        nullable_within(p2, n, k),
    decreases k,
{
    let k1 = (k - 1) as nat;
    lemma_nullable_within_unfold(p1, n, k1);
    lemma_nullable_within_unfold(p2, n, k1);
    let i = choose|i: int|
        0 <= i < p1.len() && p1[i].0 == n && #[trigger] rhs_nullable_within(p1, p1[i].1@, k1);
    assert(has_production(p2, p1[i]));
    let i2 = choose|i2: int| 0 <= i2 < p2.len() && production_view(#[trigger] p2[i2]) == production_view(p1[i]);
    let rhs = p1[i].1@;
    assert forall|j: int| 0 <= j < rhs.len() implies item_nullable_within(p2, #[trigger] rhs[j], k1) by {
        assert(item_nullable_within(p1, rhs[j], k1));
        if let Item::NonTerminal(m) = rhs[j] {
            lemma_nullable_within_included(p1, p2, m, k1);
        }
    }
    assert(rhs_nullable_within(p2, p2[i2].1@, k1));
}

proof fn lemma_nullable_included<N: ItemTrait, T: ItemTrait>(
    p1: Seq<Production<N, T>>,
    p2: Seq<Production<N, T>>,
    n: N,
)
    requires
        productions_included(p1, p2),
        is_nullable(p1, n),
    ensures
        is_nullable(p2, n),
{
    let k = choose|k: nat| nullable_within(p1, n, k);
    lemma_nullable_within_included(p1, p2, n, k);
}

proof fn lemma_first_within_included<N: ItemTrait, T: ItemTrait>(
    p1: Seq<Production<N, T>>,
    nul1: spec_fn(N) -> bool,
    p2: Seq<Production<N, T>>,
    nul2: spec_fn(N) -> bool,
    n: N,
    t: Terminal<T>,
    k: nat,
)
    requires
        productions_included(p1, p2),
        forall|m: N| #[trigger] nul1(m) ==> nul2(m),
        first_within(p1, nul1, n, t, k),
    ensures
        first_within(p2, nul2, n, t, k),
    decreases k,
{
    let k1 = (k - 1) as nat;
    lemma_first_within_unfold(p1, nul1, n, t, k1);
    lemma_first_within_unfold(p2, nul2, n, t, k1);
    if t == Terminal::<T>::Epsilon {
        assert(nul1(n));
    } else {
        let (i, j) = choose|i: int, j: int|
            0 <= i < p1.len() && p1[i].0 == n && 0 <= j < p1[i].1@.len()
                && prefix_nullable_by(nul1, p1[i].1@, j) && #[trigger] item_first_within(
                p1,
                nul1,
                p1[i].1@[j],
                t,
                k1,
            );
        assert(has_production(p2, p1[i]));
        let i2 = choose|i2: int| 0 <= i2 < p2.len() && production_view(#[trigger] p2[i2]) == production_view(p1[i]);
        let rhs = p1[i].1@;
        assert forall|l: int| 0 <= l < j implies item_nullable_by(nul2, #[trigger] rhs[l]) by {
            assert(item_nullable_by(nul1, rhs[l]));
            if let Item::NonTerminal(m) = rhs[l] {
                assert(nul1(m));
            }
        }
        if let Item::NonTerminal(m) = rhs[j] {
            lemma_first_within_included(p1, nul1, p2, nul2, m, t, k1);
        }
        assert(item_first_within(p2, nul2, p2[i2].1@[j], t, k1));
    }
}

/// Nullability derived from fewer productions implies nullability derived from more.
proof fn lemma_nullable_fn_included<N: ItemTrait, T: ItemTrait>(
    p1: Seq<Production<N, T>>,
    p2: Seq<Production<N, T>>,
)
    requires
        productions_included(p1, p2),
    ensures
        forall|m: N| #[trigger] nullable_fn(p1)(m) ==> nullable_fn(p2)(m),
{
    assert forall|m: N| #[trigger] nullable_fn(p1)(m) implies nullable_fn(p2)(m) by {
        lemma_nullable_included(p1, p2, m);
    }
}

/// Nullability and FIRST sets depend only on which productions a grammar
/// has, not on their order or on repeats.
pub proof fn lemma_tables_depend_only_on_production_set<N: ItemTrait, T: ItemTrait>(
    p1: Seq<Production<N, T>>,
    p2: Seq<Production<N, T>>,
    n: N,
    t: Terminal<T>,
)
    requires
        productions_included(p1, p2),
        productions_included(p2, p1),
    ensures
        is_nullable(p1, n) == is_nullable(p2, n),
        in_first(p1, n, t) == in_first(p2, n, t),
{
    if is_nullable(p1, n) {
        lemma_nullable_included(p1, p2, n);
    }
    if is_nullable(p2, n) {
        lemma_nullable_included(p2, p1, n);
    }
    if in_first(p1, n, t) {
        let k = choose|k: nat| first_within(p1, nullable_fn(p1), n, t, k);
        lemma_nullable_fn_included(p1, p2);
        lemma_first_within_included(p1, nullable_fn(p1), p2, nullable_fn(p2), n, t, k);
    }
    if in_first(p2, n, t) {
        let k = choose|k: nat| first_within(p2, nullable_fn(p2), n, t, k);
        lemma_nullable_fn_included(p2, p1);
        lemma_first_within_included(p2, nullable_fn(p2), p1, nullable_fn(p1), n, t, k);
    }
}

/// Adding productions never takes nullability or FIRST elements away.
pub proof fn lemma_more_productions_keep_nullable_and_first<N: ItemTrait, T: ItemTrait>(
    p1: Seq<Production<N, T>>,
    p2: Seq<Production<N, T>>,
    n: N,
    t: Terminal<T>,
)
    requires
        productions_included(p1, p2),
    ensures
        is_nullable(p1, n) ==> is_nullable(p2, n),
        in_first(p1, n, t) ==> in_first(p2, n, t),
{
    if is_nullable(p1, n) {
        lemma_nullable_included(p1, p2, n);
    }
    if in_first(p1, n, t) {
        let k = choose|k: nat| first_within(p1, nullable_fn(p1), n, t, k);
        lemma_nullable_fn_included(p1, p2);
        lemma_first_within_included(p1, nullable_fn(p1), p2, nullable_fn(p2), n, t, k);
    }
}

/// The tables of a grammar with more productions mark at least the same
/// nonterminals nullable and list at least the same FIRST elements.
pub proof fn lemma_more_productions_grow_tables<N: ItemTrait, T: ItemTrait>(
    p1: Seq<Production<N, T>>,
    p2: Seq<Production<N, T>>,
    nullable1: Seq<(N, bool)>,
    first1: Seq<(N, Vec<Terminal<T>>)>,
    nullable2: Seq<(N, bool)>,
    first2: Seq<(N, Vec<Terminal<T>>)>,
    n: N,
    t: Terminal<T>,
)
    requires
        productions_included(p1, p2),
        nullable_table_correct(p1, nullable1),
        first_table_correct(p1, first1),
        nullable_table_correct(p2, nullable2),
        first_table_correct(p2, first2),
    ensures
        has_key(nullable1, n) ==> has_key(nullable2, n),
        table_says_nullable(nullable1, n) ==> table_says_nullable(nullable2, n),
        has_key(first1, n) ==> has_key(first2, n),
        table_has(first1, n, t) ==> table_has(first2, n, t),
{
    lemma_more_productions_keep_nullable_and_first(p1, p2, n, t);
    if has_key(nullable1, n) {
        let i = choose|i: int| 0 <= i < p1.len() && #[trigger] p1[i].0 == n;
        assert(has_production(p2, p1[i]));
        let j = choose|j: int| 0 <= j < p2.len() && production_view(#[trigger] p2[j]) == production_view(p1[i]);
        assert(p2[j].0 == n);
        assert(is_head(p2, n));
    }
    if table_says_nullable(nullable1, n) {
        let e = choose|e: int| 0 <= e < nullable1.len() && #[trigger] nullable1[e].0 == n && nullable1[e].1;
        assert(is_nullable(p2, n));
        assert(has_key(nullable2, n));
        let e2 = choose|e2: int| 0 <= e2 < nullable2.len() && #[trigger] nullable2[e2].0 == n;
        assert(nullable2[e2].1);
    }
    if has_key(first1, n) {
        let e = choose|e: int| 0 <= e < first1.len() && #[trigger] first1[e].0 == n;
        let t0 = first1[e].1@[0];
        assert(table_has(first1, n, t0));
        lemma_more_productions_keep_nullable_and_first(p1, p2, n, t0);
        assert(table_has(first2, n, t0));
    }
}

/// Correct tables for one list of productions are correct for every list
/// with the same productions.
pub proof fn lemma_tables_transfer<N: ItemTrait, T: ItemTrait>(
    p1: Seq<Production<N, T>>,
    p2: Seq<Production<N, T>>,
    nullable: Seq<(N, bool)>,
    first: Seq<(N, Vec<Terminal<T>>)>,
)
    requires
        productions_included(p1, p2),
        productions_included(p2, p1),
        nullable_table_correct(p1, nullable),
        first_table_correct(p1, first),
    ensures
        nullable_table_correct(p2, nullable),
        first_table_correct(p2, first),
{
    assert forall|n: N| is_head(p1, n) <==> is_head(p2, n) by {
        if is_head(p1, n) {
            let i = choose|i: int| 0 <= i < p1.len() && #[trigger] p1[i].0 == n;
            assert(has_production(p2, p1[i]));
            let j = choose|j: int| 0 <= j < p2.len() && production_view(#[trigger] p2[j]) == production_view(p1[i]);
            assert(p2[j].0 == n);
        }
        if is_head(p2, n) {
            let i = choose|i: int| 0 <= i < p2.len() && #[trigger] p2[i].0 == n;
            assert(has_production(p1, p2[i]));
            let j = choose|j: int| 0 <= j < p1.len() && production_view(#[trigger] p1[j]) == production_view(p2[i]);
            assert(p1[j].0 == n);
        }
    }
    assert forall|i: int| 0 <= i < nullable.len() implies #[trigger] nullable[i].1 == is_nullable(p2, nullable[i].0) by {
        lemma_tables_depend_only_on_production_set(p1, p2, nullable[i].0, Terminal::Epsilon);
    }
    assert forall|n: N, t: Terminal<T>| table_has(first, n, t) <==> in_first(p2, n, t) by {
        lemma_tables_depend_only_on_production_set(p1, p2, n, t);
    }
}

// ---------------------------------------------------------------------------
// The grammar.
// ---------------------------------------------------------------------------

/// The grammar, with the nullability and FIRST sets of its nonterminals.
pub struct Grammar<N: ItemTrait, T: ItemTrait> {
    nullable: Vec<(N, bool)>,
    first: Vec<(N, Vec<Terminal<T>>)>,
    productions: Vec<Production<N, T>>,
    start_symbol: N,
}

impl<N: ItemTrait, T: ItemTrait> Grammar<N, T> {
    /// The tables agree with the productions.
    #[verifier::type_invariant]
    spec fn tables_agree(self) -> bool {
        &&& nullable_table_correct(self.productions@, self.nullable@)
        &&& first_table_correct(self.productions@, self.first@)
    }

    /// The productions of the grammar.
    pub closed spec fn spec_productions(self) -> Seq<Production<N, T>> {
        self.productions@
    }

    /// The start symbol of the grammar.
    pub closed spec fn spec_start_symbol(self) -> N {
        self.start_symbol
    }

    /// The nullability table.
    pub closed spec fn spec_nullable(self) -> Seq<(N, bool)> {
        self.nullable@
    }

    /// The FIRST table.
    pub closed spec fn spec_first(self) -> Seq<(N, Vec<Terminal<T>>)> {
        self.first@
    }

    /// Builds a grammar from its productions and start symbol, computing
    /// which nonterminals are nullable and the FIRST set of each.
    pub fn new(productions: Vec<Production<N, T>>, start_symbol: N) -> (g: Self)
        requires
            grammar_laws::<N, T>(),
        ensures
            productions_distinct(g.spec_productions()),
            productions_included(g.spec_productions(), productions@),
            productions_included(productions@, g.spec_productions()),
            g.spec_start_symbol() == start_symbol,
            nullable_table_correct(productions@, g.spec_nullable()),
            first_table_correct(productions@, g.spec_first()),
    {
        let mut distinct: Vec<Production<N, T>> = Vec::new();
        let mut i: usize = 0;
        while i < productions.len()
            invariant
                grammar_laws::<N, T>(),
                i <= productions@.len(),
                productions_distinct(distinct@),
                productions_included(distinct@, productions@),
                forall|i2: int| 0 <= i2 < i ==> has_production(distinct@, #[trigger] productions@[i2]),
            decreases productions@.len() - i,
        {
            let mut present = false;
            for j in 0..distinct.len()
                invariant
                    grammar_laws::<N, T>(),
                    i < productions@.len(),
                    !present ==> forall|j2: int| 0 <= j2 < j ==> production_view(distinct@[j2])
                        != production_view(productions@[i as int]),
                    present ==> has_production(distinct@, productions@[i as int]),
            {
                if production_eq(&distinct[j], &productions[i]) {
                    present = true;
                }
            }
            if present {
                proof {
                    assert forall|i2: int| 0 <= i2 < i + 1 implies has_production(distinct@, #[trigger] productions@[i2]) by {
                    }
                }
            } else {
                let ghost before = distinct@;
                distinct.push(production_clone(&productions[i]));
                proof {
                    let last = before.len() as int;
                    assert(production_view(distinct@[last]) == production_view(productions@[i as int]));
                    assert forall|a: int, b: int| 0 <= a < b < distinct@.len() implies production_view(distinct@[a])
                        != production_view(distinct@[b]) by {
                        assert(distinct@[a] == before[a] || a == last);
                        if b < last {
                            assert(distinct@[b] == before[b]);
                        }
                    }
                    assert forall|a: int| 0 <= a < distinct@.len() implies has_production(productions@, #[trigger] distinct@[a]) by {
                        if a < last {
                            assert(distinct@[a] == before[a]);
                        } else {
                            assert(production_view(productions@[i as int]) == production_view(distinct@[a]));
                        }
                    }
                    assert forall|i2: int| 0 <= i2 < i + 1 implies has_production(distinct@, #[trigger] productions@[i2]) by {
                        if i2 < i {
                            let j = choose|j: int| 0 <= j < before.len() && production_view(#[trigger] before[j])
                                == production_view(productions@[i2]);
                            assert(distinct@[j] == before[j]);
                        } else {
                            assert(production_view(distinct@[last]) == production_view(productions@[i2]));
                        }
                    }
                }
            }
            i = i + 1;
        }
        proof {
            assert(productions_included(productions@, distinct@));
        }
        let nullables = Self::compute_nullables(&distinct);
        let first = Self::compute_firsts(&distinct, &nullables);
        proof {
            lemma_given_fn_agrees(distinct@, nullables@);
            lemma_tables_transfer(distinct@, productions@, nullables@, first@);
        }
        Self { nullable: nullables, first, productions: distinct, start_symbol }
    }

    /// The productions of the grammar.
    pub fn productions(&self) -> (r: &Vec<Production<N, T>>)
        ensures
            r@ == self.spec_productions(),
    {
        &self.productions
    }

    /// The start symbol of the grammar.
    pub fn start_symbol(&self) -> (r: &N)
        ensures
            *r == self.spec_start_symbol(),
    {
        &self.start_symbol
    }

    /// For each head of a production, whether it derives the empty string.
    pub fn nullable(&self) -> (r: &Vec<(N, bool)>)
        ensures
            r@ == self.spec_nullable(),
            nullable_table_correct(self.spec_productions(), r@),
    {
        proof {
            use_type_invariant(self);
        }
        &self.nullable
    }

    /// The FIRST set of each nonterminal whose FIRST set is not empty.
    pub fn first(&self) -> (r: &Vec<(N, Vec<Terminal<T>>)>)
        ensures
            r@ == self.spec_first(),
            first_table_correct(self.spec_productions(), r@),
    {
        proof {
            use_type_invariant(self);
        }
        &self.first
    }

    /// Whether `n` is nullable according to a table with distinct keys;
    /// a symbol the table does not know is not nullable.
    fn lookup_nullable(nullables: &Vec<(N, bool)>, n: &N) -> (r: bool)
        requires
            symbol_laws::<N>(),
            keys_distinct(nullables@),
        ensures
            r == table_says_nullable(nullables@, *n),
    {
        match find_key(nullables, n) {
            Some(i) => {
                let r = nullables[i].1;
                proof {
                    if table_says_nullable(nullables@, *n) {
                        let i2 = choose|i2: int|
                            0 <= i2 < nullables@.len() && #[trigger] nullables@[i2].0 == *n
                                && nullables@[i2].1;
                        assert(i2 == i as int);
                    }
                }
                r
            },
            None => false,
        }
    }

    /// Tells whether every symbol of `result` is nullable according to
    /// `nullables` alone; a nonterminal the table does not know counts as not
    /// nullable.
    fn rhs_nullable_by_table(nullables: &Vec<(N, bool)>, result: &Vec<Item<N, T>>) -> (r: bool)
        requires
            grammar_laws::<N, T>(),
            keys_distinct(nullables@),
        ensures
            r == rhs_nullable_in(nullables@, result@),
    {
        for j in 0..result.len()
            invariant
                grammar_laws::<N, T>(),
                keys_distinct(nullables@),
                forall|l: int| 0 <= l < j ==> item_nullable_in(nullables@, #[trigger] result@[l]),
        {
            let ok = match &result[j] {
                Item::EndOfInput => false,
                Item::Epsilon => true,
                Item::Terminal(_) => false,
                Item::NonTerminal(n) => Self::lookup_nullable(nullables, n),
            };
            if !ok {
                assert(!item_nullable_in(nullables@, result@[j as int]));
                return false;
            }
        }
        true
    }

    /// Tells whether some production of `nonterminal` has a body that is
    /// nullable according to the table `already_computed` alone.
    fn head_nullable_by_table(
        productions: &Vec<Production<N, T>>,
        nonterminal: &N,
        already_computed: &Vec<(N, bool)>,
    ) -> (r: bool)
        requires
            grammar_laws::<N, T>(),
            keys_distinct(already_computed@),
        ensures
            r == exists|i: int|
                0 <= i < productions@.len() && #[trigger] productions@[i].0 == *nonterminal
                    && rhs_nullable_in(already_computed@, productions@[i].1@),
    {
        for i in 0..productions.len()
            invariant
                grammar_laws::<N, T>(),
                keys_distinct(already_computed@),
                forall|i2: int|
                    0 <= i2 < i && #[trigger] productions@[i2].0 == *nonterminal
                        ==> !rhs_nullable_in(already_computed@, productions@[i2].1@),
        {
            let production = &productions[i];
            if symbol_eq(&production.0, nonterminal) {
                if Self::rhs_nullable_by_table(already_computed, &production.1) {
                    return true;
                }
            }
        }
        false
    }

    /// Computes, for every head of `productions`, whether it derives the
    /// empty string: starting from "not nullable" for every head, passes over
    /// the heads mark those with a body that the table already shows nullable,
    /// until a pass marks nothing.
    fn nullable_fixpoint(productions: &Vec<Production<N, T>>) -> (computed: Vec<(N, bool)>)
        requires
            grammar_laws::<N, T>(),
        ensures
            nullable_table_correct(productions@, computed@),
    {
        let ghost prods = productions@;
        let mut computed: Vec<(N, bool)> = Vec::new();
        for i in 0..productions.len()
            invariant
                grammar_laws::<N, T>(),
                prods == productions@,
                keys_distinct(computed@),
                forall|n: N| has_key(computed@, n) ==> is_head(prods, n),
                forall|i2: int| 0 <= i2 < i ==> has_key(computed@, #[trigger] prods[i2].0),
                forall|e: int| 0 <= e < computed@.len() ==> !(#[trigger] computed@[e]).1,
        {
            let nonterminal = &productions[i].0;
            if find_key(&computed, nonterminal).is_none() {
                let ghost old_tbl = computed@;
                computed.push((symbol_clone(nonterminal), false));
                proof {
                    assert(computed@[old_tbl.len() as int].0 == prods[i as int].0);
                    assert forall|n: N| has_key(computed@, n) implies is_head(prods, n) by {
                        let e = choose|e: int| 0 <= e < computed@.len() && #[trigger] computed@[e].0 == n;
                        if e < old_tbl.len() {
                            assert(old_tbl[e].0 == n);
                        } else {
                            assert(prods[i as int].0 == n);
                        }
                    }
                    assert forall|i2: int| 0 <= i2 <= i implies has_key(computed@, #[trigger] prods[i2].0) by {
                        if i2 < i {
                            let e = choose|e: int| 0 <= e < old_tbl.len() && #[trigger] old_tbl[e].0 == prods[i2].0;
                            assert(computed@[e] == old_tbl[e]);
                        } else {
                            assert(computed@[old_tbl.len() as int].0 == prods[i2].0);
                        }
                    }
                }
            }
        }
        let mut changed = true;
        while changed
            invariant
                grammar_laws::<N, T>(),
                prods == productions@,
                keys_distinct(computed@),
                forall|n: N| has_key(computed@, n) <==> is_head(prods, n),
                forall|e: int| 0 <= e < computed@.len() && (#[trigger] computed@[e]).1 ==> is_nullable(prods, computed@[e].0),
                !changed ==> forall|p: int|
                    0 <= p < prods.len() && #[trigger] rhs_nullable_in(computed@, prods[p].1@)
                        ==> table_says_nullable(computed@, prods[p].0),
            decreases count_unmarked(computed@) + if changed { 1nat } else { 0nat },
        {
            changed = false;
            let ghost start = computed@;
            let len = computed.len();
            for i in 0..len
                invariant
                    grammar_laws::<N, T>(),
                    prods == productions@,
                    len == computed@.len(),
                    keys_distinct(computed@),
                    forall|n: N| has_key(computed@, n) <==> is_head(prods, n),
                    forall|e: int| 0 <= e < computed@.len() && (#[trigger] computed@[e]).1 ==> is_nullable(prods, computed@[e].0),
                    forall|e: int| 0 <= e < len ==> (#[trigger] computed@[e]).0 == start[e].0,
                    !changed ==> computed@ == start,
                    changed ==> count_unmarked(computed@) < count_unmarked(start),
                    !changed ==> forall|e: int| 0 <= e < i ==> (#[trigger] computed@[e]).1 || !(exists|p: int|
                        0 <= p < prods.len() && #[trigger] prods[p].0 == computed@[e].0
                            && rhs_nullable_in(computed@, prods[p].1@)),
            {
                if !computed[i].1 {
                    let nullable = Self::head_nullable_by_table(productions, &computed[i].0, &computed);
                    if nullable {
                        let ghost before = computed@;
                        let key = symbol_clone(&computed[i].0);
                        proof {
                            let p = choose|p: int|
                                0 <= p < prods.len() && #[trigger] prods[p].0 == before[i as int].0
                                    && rhs_nullable_in(before, prods[p].1@);
                            let rhs = prods[p].1@;
                            assert forall|l: int| 0 <= l < rhs.len() implies item_is_nullable(prods, #[trigger] rhs[l]) by {
                                assert(item_nullable_in(before, rhs[l]));
                                if let Item::NonTerminal(m) = rhs[l] {
                                    let e = choose|e: int| 0 <= e < before.len() && #[trigger] before[e].0 == m && before[e].1;
                                }
                            }
                            lemma_production_nullable(prods, p);
                            lemma_count_unmarked_mark(before, i as int, key);
                        }
                        computed.set(i, (key, true));
                        changed = true;
                        proof {
                            assert forall|n: N| has_key(computed@, n) <==> is_head(prods, n) by {
                                if has_key(before, n) {
                                    let e = choose|e: int| 0 <= e < before.len() && #[trigger] before[e].0 == n;
                                    assert(computed@[e].0 == n);
                                }
                                if has_key(computed@, n) {
                                    let e = choose|e: int| 0 <= e < computed@.len() && #[trigger] computed@[e].0 == n;
                                    assert(before[e].0 == n);
                                }
                            }
                        }
                    }
                }
            }
            proof {
                if !changed {
                    assert forall|p: int|
                        0 <= p < prods.len() && #[trigger] rhs_nullable_in(computed@, prods[p].1@)
                            implies table_says_nullable(computed@, prods[p].0) by {
                        assert(is_head(prods, prods[p].0));
                        let e = choose|e: int| 0 <= e < computed@.len() && #[trigger] computed@[e].0 == prods[p].0;
                        assert(computed@[e].1);
                    }
                }
            }
        }
        proof {
            assert forall|e: int| 0 <= e < computed@.len() implies #[trigger] computed@[e].1 == is_nullable(prods, computed@[e].0) by {
                if is_nullable(prods, computed@[e].0) {
                    let k = choose|k: nat| nullable_within(prods, computed@[e].0, k);
                    lemma_nullable_table_complete(prods, computed@, computed@[e].0, k);
                    let e2 = choose|e2: int| 0 <= e2 < computed@.len() && #[trigger] computed@[e2].0 == computed@[e].0 && computed@[e2].1;
                    assert(e2 == e);
                }
            }
        }
        computed
    }

    /// Whether `nonterminal` derives the empty string, computed from the
    /// productions alone.
    fn nullable_from_productions(productions: &Vec<Production<N, T>>, nonterminal: &N) -> (r: bool)
        requires
            grammar_laws::<N, T>(),
        ensures
            r == is_nullable(productions@, *nonterminal),
    {
        let table = Self::nullable_fixpoint(productions);
        let r = Self::lookup_nullable(&table, nonterminal);
        proof {
            if !has_key(table@, *nonterminal) {
                if is_nullable(productions@, *nonterminal) {
                    let i = lemma_nullable_has_production(productions@, *nonterminal);
                    assert(is_head(productions@, *nonterminal));
                }
            } else {
                let e = choose|e: int| 0 <= e < table@.len() && #[trigger] table@[e].0 == *nonterminal;
                if table_says_nullable(table@, *nonterminal) {
                    let e2 = choose|e2: int| 0 <= e2 < table@.len() && #[trigger] table@[e2].0 == *nonterminal && table@[e2].1;
                }
                if is_nullable(productions@, *nonterminal) {
                    assert(table@[e].1);
                }
            }
        }
        r
    }

    /// Tells whether every symbol of `result` derives the empty string,
    /// reading the nullability of a nonterminal from `nullables` where it has
    /// an entry and computing it from `productions` where it has none.
    pub fn is_sequence_nullable(
        productions: &Vec<Production<N, T>>,
        nullables: &Vec<(N, bool)>,
        result: &Vec<Item<N, T>>,
    ) -> (r: bool)
        requires
            grammar_laws::<N, T>(),
            keys_distinct(nullables@),
        ensures
            r == rhs_nullable_given(productions@, nullables@, result@),
            nullable_entries_correct(productions@, nullables@) ==> (r == rhs_is_nullable(
                productions@,
                result@,
            )),
    {
        proof {
            if nullable_entries_correct(productions@, nullables@) {
                lemma_nullable_given_agrees(productions@, nullables@, result@);
            }
        }
        for j in 0..result.len()
            invariant
                grammar_laws::<N, T>(),
                keys_distinct(nullables@),
                forall|l: int|
                    0 <= l < j ==> item_nullable_given(productions@, nullables@, #[trigger] result@[l]),
        {
            let ok = match &result[j] {
                Item::EndOfInput => false,
                Item::Epsilon => true,
                Item::Terminal(_) => false,
                Item::NonTerminal(n) => {
                    if find_key(nullables, n).is_some() {
                        Self::lookup_nullable(nullables, n)
                    } else {
                        Self::nullable_from_productions(productions, n)
                    }
                },
            };
            if !ok {
                assert(!item_nullable_given(productions@, nullables@, result@[j as int]));
                return false;
            }
        }
        true
    }

    /// Tells whether some production of `nonterminal` has a body that
    /// derives the empty string, in the sense of [`Self::is_sequence_nullable`].
    pub fn compute_non_terminal_nullability(
        productions: &Vec<Production<N, T>>,
        nonterminal: &N,
        already_computed: &Vec<(N, bool)>,
    ) -> (r: bool)
        requires
            grammar_laws::<N, T>(),
            keys_distinct(already_computed@),
        ensures
            r == exists|i: int|
                0 <= i < productions@.len() && #[trigger] productions@[i].0 == *nonterminal
                    && rhs_nullable_given(productions@, already_computed@, productions@[i].1@),
            nullable_entries_correct(productions@, already_computed@) ==> (r == is_nullable(
                productions@,
                *nonterminal,
            )),
    {
        let ghost prods = productions@;
        let mut i: usize = 0;
        while i < productions.len()
            invariant
                grammar_laws::<N, T>(),
                prods == productions@,
                keys_distinct(already_computed@),
                i <= prods.len(),
                forall|i2: int|
                    0 <= i2 < i && #[trigger] prods[i2].0 == *nonterminal
                        ==> !rhs_nullable_given(prods, already_computed@, prods[i2].1@),
            decreases prods.len() - i,
        {
            let production = &productions[i];
            if symbol_eq(&production.0, nonterminal) {
                if Self::is_sequence_nullable(productions, already_computed, &production.1) {
                    proof {
                        if nullable_entries_correct(prods, already_computed@) {
                            lemma_nullable_given_agrees(prods, already_computed@, prods[i as int].1@);
                            lemma_production_nullable(prods, i as int);
                        }
                    }
                    return true;
                }
            }
            i = i + 1;
        }
        proof {
            if nullable_entries_correct(prods, already_computed@) && is_nullable(prods, *nonterminal) {
                let p = lemma_nullable_has_production(prods, *nonterminal);
                lemma_nullable_given_agrees(prods, already_computed@, prods[p].1@);
            }
        }
        false
    }

    /// Computes, for every head of `productions`, whether it derives the
    /// empty string, taking the heads in order and recording each one not
    /// yet recorded.
    pub fn compute_nullables(productions: &Vec<Production<N, T>>) -> (computed: Vec<(N, bool)>)
        requires
            grammar_laws::<N, T>(),
        ensures
            nullable_table_correct(productions@, computed@),
    {
        let ghost prods = productions@;
        let mut computed: Vec<(N, bool)> = Vec::new();
        for i in 0..productions.len()
            invariant
                grammar_laws::<N, T>(),
                prods == productions@,
                nullable_entries_correct(prods, computed@),
                forall|n: N| has_key(computed@, n) ==> is_head(prods, n),
                forall|i2: int| 0 <= i2 < i ==> has_key(computed@, #[trigger] prods[i2].0),
        {
            let nonterminal = &productions[i].0;
            if find_key(&computed, nonterminal).is_none() {
                let nullability = Self::compute_non_terminal_nullability(productions, nonterminal, &computed);
                let ghost old_tbl = computed@;
                computed.push((symbol_clone(nonterminal), nullability));
                proof {
                    let last = old_tbl.len() as int;
                    assert(computed@[last].0 == prods[i as int].0);
                    assert forall|a: int, b: int| 0 <= a < b < computed@.len() implies computed@[a].0 != computed@[b].0 by {
                        assert(computed@[a] == old_tbl[a]);
                        if b < last {
                            assert(computed@[b] == old_tbl[b]);
                        } else {
                            assert(has_key(old_tbl, old_tbl[a].0));
                        }
                    }
                    assert forall|e: int| 0 <= e < computed@.len() implies #[trigger] computed@[e].1 == is_nullable(prods, computed@[e].0) by {
                        if e < last {
                            assert(computed@[e] == old_tbl[e]);
                        }
                    }
                    assert forall|n: N| has_key(computed@, n) implies is_head(prods, n) by {
                        let e = choose|e: int| 0 <= e < computed@.len() && #[trigger] computed@[e].0 == n;
                        if e < last {
                            assert(old_tbl[e].0 == n);
                        } else {
                            assert(prods[i as int].0 == n);
                        }
                    }
                    assert forall|i2: int| 0 <= i2 <= i implies has_key(computed@, #[trigger] prods[i2].0) by {
                        if i2 < i {
                            let e = choose|e: int| 0 <= e < old_tbl.len() && #[trigger] old_tbl[e].0 == prods[i2].0;
                            assert(computed@[e] == old_tbl[e]);
                        } else {
                            assert(computed@[last].0 == prods[i2].0);
                        }
                    }
                }
            }
        }
        proof {
            assert forall|n: N| is_head(prods, n) implies has_key(computed@, n) by {
                let i2 = choose|i2: int| 0 <= i2 < prods.len() && #[trigger] prods[i2].0 == n;
            }
        }
        computed
    }

    /// Computes FIRST of every nonterminal of `productions` by repeating a pass
    /// over the productions until a pass changes nothing.
    pub fn compute_firsts(
        productions: &Vec<Production<N, T>>,
        nullables: &Vec<(N, bool)>,
    ) -> (result: Vec<(N, Vec<Terminal<T>>)>)
        requires
            grammar_laws::<N, T>(),
            keys_distinct(nullables@),
        ensures
            first_table_correct_by(productions@, given_fn(productions@, nullables@), result@),
            first_table_bounded(productions@, result@),
    {
        let ghost prods = productions@;
        let ghost nul = given_fn(prods, nullables@);
        let ghost bound = prods.len() * first_universe(prods).len();
        let mut result: Vec<(N, Vec<Terminal<T>>)> = Vec::new();
        let mut changed = true;
        while changed
            invariant
                grammar_laws::<N, T>(),
                prods == productions@,
                bound == prods.len() * first_universe(prods).len(),
                keys_distinct(nullables@),
                nul == given_fn(prods, nullables@),
                first_table_shape(result@),
                forall|n: N, t: Terminal<T>| table_has(result@, n, t) ==> in_first_by(prods, nul, n, t),
                first_table_bounded(prods, result@),
                total_listed(result@) <= bound,
                !changed ==> forall|p: int|
                    0 <= p < prods.len() ==> #[trigger] production_done(prods, nullables@, result@, p),
            decreases bound - total_listed(result@) + if changed {
                1int
            } else {
                0int
            },
        {
            changed = false;
            let ghost start = result@;
            for pi in 0..productions.len()
                invariant
                    grammar_laws::<N, T>(),
                    prods == productions@,
                    bound == prods.len() * first_universe(prods).len(),
                    keys_distinct(nullables@),
                nul == given_fn(prods, nullables@),
                    first_table_shape(result@),
                    forall|n: N, t: Terminal<T>| table_has(result@, n, t) ==> in_first_by(prods, nul, n, t),
                first_table_bounded(prods, result@),
                    total_listed(result@) <= bound,
                    !changed ==> result@ == start,
                    changed ==> total_listed(result@) > total_listed(start),
                    !changed ==> forall|p: int|
                        0 <= p < pi ==> #[trigger] production_done(prods, nullables@, result@, p),
            {
                let production = &productions[pi];
                let ghost head = production.0;
                let ghost rhs = production.1@;
                if Self::is_sequence_nullable(productions, nullables, &production.1) {
                    proof {
                        assert(head_nullable_given(prods, nullables@, head));
                        assert(nul(head));
                        lemma_epsilon_first_iff_by(prods, nul, head);
                        lemma_first_universe_eps(prods);
                        assert(is_head(prods, head));
                    }
                    if !changed {
                        changed = insert_first(&mut result, &production.0, Terminal::Epsilon);
                        proof {
                            lemma_first_table_bound(prods, result@);
                        }
                    }
                }
                let mut j: usize = 0;
                let mut stop = false;
                while j < production.1.len() && !stop
                    invariant
                        grammar_laws::<N, T>(),
                        prods == productions@,
                        bound == prods.len() * first_universe(prods).len(),
                        0 <= pi < prods.len(),
                        head == prods[pi as int].0,
                        rhs == prods[pi as int].1@,
                        production == &productions[pi as int],
                        0 <= j <= rhs.len(),
                        first_table_shape(result@),
                        forall|n: N, t: Terminal<T>| table_has(result@, n, t) ==> in_first_by(prods, nul, n, t),
                first_table_bounded(prods, result@),
                        total_listed(result@) <= bound,
                        !changed ==> result@ == start,
                        changed ==> total_listed(result@) > total_listed(start),
                        !changed ==> forall|p: int|
                            0 <= p < pi ==> #[trigger] production_done(prods, nullables@, result@, p),
                        !changed ==> (rhs_nullable_given(prods, nullables@, rhs) ==> table_has(
                            result@,
                            head,
                            Terminal::<T>::Epsilon,
                        )),
                        !stop ==> prefix_nullable_by(nul, rhs, j as int),
                        !changed && !stop ==> prefix_first_nullable(result@, rhs, j as int),
                        !changed && stop ==> !prefix_first_nullable(result@, rhs, j as int),
                        !changed ==> forall|j2: int, t: Terminal<T>|
                            0 <= j2 < j && prefix_first_nullable(result@, rhs, j2)
                                && #[trigger] item_first_in(result@, rhs[j2], t) && t
                                != Terminal::<T>::Epsilon ==> table_has(result@, head, t),
                    decreases rhs.len() - j,
                {
                    let item = &production.1[j];
                    let ghost table_then = result@;
                    let firsts: Vec<Terminal<T>> = match item {
                        Item::NonTerminal(m) => first_lookup(&result, m),
                        Item::Terminal(x) => {
                            let mut v: Vec<Terminal<T>> = Vec::new();
                            v.push(Terminal::Terminal(symbol_clone(x)));
                            v
                        },
                        Item::Epsilon => {
                            let mut v: Vec<Terminal<T>> = Vec::new();
                            v.push(Terminal::Epsilon);
                            v
                        },
                        Item::EndOfInput => {
                            let mut v: Vec<Terminal<T>> = Vec::new();
                            v.push(Terminal::EndOfInput);
                            v
                        },
                    };
                    proof {
                        assert forall|t: Terminal<T>| firsts@.contains(t) <==> item_first_in(
                            table_then,
                            rhs[j as int],
                            t,
                        ) by {
                            match rhs[j as int] {
                                Item::NonTerminal(m) => {},
                                _ => {
                                    if firsts@.contains(t) {
                                        let b = choose|b: int| 0 <= b < firsts@.len() && firsts@[b] == t;
                                        assert(b == 0);
                                    }
                                    if item_first_in(table_then, rhs[j as int], t) {
                                        assert(firsts@[0] == t);
                                    }
                                },
                            }
                        }
                        assert forall|t: Terminal<T>| firsts@.contains(t) implies first_universe(prods).contains(t) by {
                            assert(item_first_in(table_then, rhs[j as int], t));
                            lemma_first_universe_eps(prods);
                            match rhs[j as int] {
                                Item::NonTerminal(m) => {
                                    assert(table_has(table_then, m, t));
                                },
                                _ => {
                                    lemma_first_universe_contains(prods, pi as int, j as int);
                                },
                            }
                        }
                        assert forall|t: Terminal<T>|
                            firsts@.contains(t) && t != Terminal::<T>::Epsilon implies in_first_by(
                            prods,
                            nul,
                            head,
                            t,
                        ) by {
                            assert(item_first_in(table_then, rhs[j as int], t));
                            let kk: nat = match rhs[j as int] {
                                Item::NonTerminal(m) => {
                                    assert(in_first_by(prods, nul, m, t));
                                    choose|k: nat| first_within(prods, nul, m, t, k)
                                },
                                _ => 0,
                            };
                            assert(item_first_within(prods, nul, prods[pi as int].1@[j as int], t, kk));
                            lemma_first_within_unfold(prods, nul, head, t, kk);
                            assert(first_within(prods, nul, head, t, kk + 1));
                        }
                    }
                    let nullable = terminals_contain(&firsts, &Terminal::Epsilon);
                    proof {
                        if nullable {
                            assert(item_first_in(table_then, rhs[j as int], Terminal::Epsilon));
                            if let Item::NonTerminal(m) = rhs[j as int] {
                                lemma_epsilon_first_iff_by(prods, nul, m);
                            }
                            assert(item_nullable_by(nul, rhs[j as int]));
                        }
                    }
                    for f in 0..firsts.len()
                        invariant
                            grammar_laws::<N, T>(),
                            prods == productions@,
                            bound == prods.len() * first_universe(prods).len(),
                            first_table_shape(result@),
                            forall|n: N, t: Terminal<T>| table_has(result@, n, t) ==> in_first_by(prods, nul, n, t),
                first_table_bounded(prods, result@),
                            forall|t: Terminal<T>|
                                firsts@.contains(t) && t != Terminal::<T>::Epsilon ==> in_first_by(
                                    prods,
                                    nul,
                                    head,
                                    t,
                                ),
                            forall|t: Terminal<T>| firsts@.contains(t) ==> first_universe(prods).contains(t),
                            is_head(prods, head),
                            head == production.0,
                            total_listed(result@) <= bound,
                            !changed ==> result@ == start,
                            !changed ==> table_then == start,
                            changed ==> total_listed(result@) > total_listed(start),
                            !changed ==> forall|f2: int|
                                0 <= f2 < f && #[trigger] firsts@[f2] != Terminal::<T>::Epsilon
                                    ==> table_has(result@, head, firsts@[f2]),
                    {
                        if !terminal_eq(&firsts[f], &Terminal::Epsilon) {
                            if !changed {
                                let t = terminal_clone(&firsts[f]);
                                proof {
                                    assert(firsts@.contains(firsts@[f as int]));
                                    assert(first_universe(prods).contains(t));
                                }
                                changed = insert_first(&mut result, &production.0, t);
                                proof {
                                    lemma_first_table_bound(prods, result@);
                                }
                            }
                        }
                    }
                    proof {
                        if !changed {
                            assert forall|j2: int, t: Terminal<T>|
                                0 <= j2 < j + 1 && prefix_first_nullable(result@, rhs, j2)
                                    && #[trigger] item_first_in(result@, rhs[j2], t) && t
                                    != Terminal::<T>::Epsilon implies table_has(result@, head, t) by {
                                if j2 == j {
                                    assert(firsts@.contains(t));
                                    let f2 = choose|f2: int| 0 <= f2 < firsts@.len() && firsts@[f2] == t;
                                    assert(firsts@[f2] != Terminal::<T>::Epsilon);
                                }
                            }
                        }
                    }
                    j = j + 1;
                    if !nullable {
                        stop = true;
                    }
                    proof {
                        if !changed && !stop {
                            assert forall|l: int| 0 <= l < j implies item_first_in(
                                result@,
                                #[trigger] rhs[l],
                                Terminal::<T>::Epsilon,
                            ) by {
                                if l < j - 1 {
                                } else {
                                    assert(firsts@.contains(Terminal::<T>::Epsilon));
                                }
                            }
                        }
                        if !changed && stop {
                            assert(!item_first_in(result@, rhs[j - 1], Terminal::<T>::Epsilon));
                        }
                    }
                }
                proof {
                    if !changed {
                        assert forall|j2: int, t: Terminal<T>|
                            0 <= j2 < rhs.len() && prefix_first_nullable(result@, rhs, j2)
                                && #[trigger] item_first_in(result@, rhs[j2], t) && t
                                != Terminal::<T>::Epsilon implies table_has(result@, head, t) by {
                            if j2 >= j {
                                assert(stop);
                                assert(item_first_in(result@, rhs[j - 1], Terminal::<T>::Epsilon));
                            }
                        }
                        assert(production_closed(prods, result@, pi as int));
                        assert(production_done(prods, nullables@, result@, pi as int));
                    }
                }
            }
        }
        proof {
            assert forall|m: N| #[trigger] nul(m) implies table_has(result@, m, Terminal::<T>::Epsilon) by {
                assert(head_nullable_given(prods, nullables@, m));
                let i = choose|i: int|
                    0 <= i < prods.len() && #[trigger] prods[i].0 == m && rhs_nullable_given(
                        prods,
                        nullables@,
                        prods[i].1@,
                    );
                assert(production_done(prods, nullables@, result@, i));
            }
            assert forall|p: int| 0 <= p < prods.len() implies #[trigger] production_closed(prods, result@, p) by {
                assert(production_done(prods, nullables@, result@, p));
            }
            assert forall|n: N, t: Terminal<T>| in_first_by(prods, nul, n, t) implies table_has(result@, n, t) by {
                let k = choose|k: nat| first_within(prods, nul, n, t, k);
                lemma_first_table_complete(prods, nul, result@, n, t, k);
            }
        }
        result
    }
}

} // verus!
