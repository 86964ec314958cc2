use vstd::prelude::*;

use super::{
    keys_distinct, lemma_distinct_len_bound, productions_distinct, grammar_laws, item_clone, item_eq, items_clone, items_eq, items_subrange_clone, symbol_clone, symbol_eq, Item,
    ItemTrait, Production, Terminal,
};

verus! {

/// An LR(0) item: a production with a dot between the part already parsed
/// and the part still expected.
#[derive(Debug, Clone, PartialEq, Eq, Hash)]
pub struct Lr0Item<N: ItemTrait, T: ItemTrait> {
    pub nonterminal: N,
    pub parsed: Vec<Item<N, T>>,
    pub potential: Vec<Item<N, T>>,
}

/// The value of an LR(0) item: head, parsed part, expected part.
pub type Lr0View<N, T> = (N, Seq<Item<N, T>>, Seq<Item<N, T>>);

impl<N: ItemTrait, T: ItemTrait> View for Lr0Item<N, T> {
    type V = Lr0View<N, T>;

    open spec fn view(&self) -> Lr0View<N, T> {
        (self.nonterminal, self.parsed@, self.potential@)
    }
}

/// The values of a sequence of LR(0) items.
pub open spec fn lr0_views<N: ItemTrait, T: ItemTrait>(items: Seq<Lr0Item<N, T>>) -> Seq<Lr0View<N, T>> {
    items.map_values(|x: Lr0Item<N, T>| x@)
}

/// The item obtained by moving the dot over the next expected symbol.
pub open spec fn shift_view<N: ItemTrait, T: ItemTrait>(v: Lr0View<N, T>) -> Lr0View<N, T> {
    (v.0, v.1.push(v.2[0]), v.2.drop_first())
}

/// The item of `production` with the dot after its first `i` symbols.
pub open spec fn split_view<N: ItemTrait, T: ItemTrait>(production: Production<N, T>, i: int) -> Lr0View<
    N,
    T,
> {
    (production.0, production.1@.take(i), production.1@.skip(i))
}

/// All items of one production, dot at positions `0` to the length of its body.
pub open spec fn production_splits<N: ItemTrait, T: ItemTrait>(production: Production<N, T>) -> Seq<
    Lr0View<N, T>,
> {
    Seq::new((production.1@.len() + 1) as nat, |i: int| split_view(production, i))
}

/// The items of all productions, production by production.
pub open spec fn all_splits<N: ItemTrait, T: ItemTrait>(prods: Seq<Production<N, T>>) -> Seq<
    Lr0View<N, T>,
>
    decreases prods.len(),
{
    if prods.len() == 0 {
        Seq::empty()
    } else {
        all_splits(prods.drop_last()) + production_splits(prods.last())
    }
}

/// `t` is the first position in `items` holding `v`.
pub open spec fn is_first_index<N: ItemTrait, T: ItemTrait>(
    items: Seq<Lr0View<N, T>>,
    v: Lr0View<N, T>,
    t: int,
) -> bool {
    &&& 0 <= t < items.len()
    &&& items[t] == v
    &&& forall|j: int| 0 <= j < t ==> items[j] != v
}

/// Compares two LR(0) items.
pub fn lr0_item_eq<N: ItemTrait, T: ItemTrait>(a: &Lr0Item<N, T>, b: &Lr0Item<N, T>) -> (r: bool)
    requires
        grammar_laws::<N, T>(),
    ensures
        r == (a@ == b@),
{
    symbol_eq(&a.nonterminal, &b.nonterminal) && items_eq(a.parsed.as_slice(), b.parsed.as_slice())
        && items_eq(a.potential.as_slice(), b.potential.as_slice())
}

/// Copies an LR(0) item.
pub fn lr0_item_clone<N: ItemTrait, T: ItemTrait>(a: &Lr0Item<N, T>) -> (r: Lr0Item<N, T>)
    requires
        grammar_laws::<N, T>(),
    ensures
        r@ == a@,
{
    Lr0Item {
        nonterminal: symbol_clone(&a.nonterminal),
        parsed: items_clone(a.parsed.as_slice()),
        potential: items_clone(a.potential.as_slice()),
    }
}

/// Position of an item in the list of items of an NFA.
#[derive(Debug, Clone, Copy, PartialEq, Eq, PartialOrd, Ord, Hash)]
pub struct Lr0ItemIndex(pub usize);

impl<N: ItemTrait, T: ItemTrait> Lr0Item<N, T> {
    /// All LR(0) items of `production`, the dot at each position in turn.
    pub fn from_production(production: &Production<N, T>) -> (r: Vec<Self>)
        requires
            grammar_laws::<N, T>(),
        ensures
            lr0_views(r@) == production_splits(*production),
    {
        let rhs = &production.1;
        let mut r: Vec<Self> = Vec::new();
        let mut i: usize = 0;
        loop
            invariant_except_break
                lr0_views(r@) == production_splits(*production).take(i as int),
            invariant
                grammar_laws::<N, T>(),
                rhs@ == production.1@,
                i <= rhs.len(),
            ensures
                i == rhs.len(),
                lr0_views(r@) == production_splits(*production).take(i + 1),
            decreases rhs.len() - i,
        {
            let item = Lr0Item {
                nonterminal: symbol_clone(&production.0),
                parsed: items_subrange_clone(rhs.as_slice(), 0, i),
                potential: items_subrange_clone(rhs.as_slice(), i, rhs.len()),
            };
            proof {
                assert(item@ == split_view(*production, i as int));
            }
            let ghost before = r@;
            r.push(item);
            proof {
                assert(lr0_views(r@) == lr0_views(before).push(item@));
                assert(production_splits(*production).take(i + 1) == production_splits(
                    *production,
                ).take(i as int).push(split_view(*production, i as int)));
            }
            if i == rhs.len() {
                break;
            }
            i = i + 1;
        }
        proof {
            assert(production_splits(*production).take(i + 1) == production_splits(*production));
        }
        r
    }

    /// The position of the first item in `items` equal to `original_item`
    /// with its dot moved one symbol to the right.
    pub fn find_shifted_item(original_item: &Lr0Item<N, T>, items: &[Lr0Item<N, T>]) -> (r:
        Lr0ItemIndex)
        requires
            grammar_laws::<N, T>(),
            original_item.potential@.len() > 0,
            lr0_views(items@).contains(shift_view(original_item@)),
        ensures
            is_first_index(lr0_views(items@), shift_view(original_item@), r.0 as int),
    {
        let mut want_to_find = lr0_item_clone(original_item);
        let first = want_to_find.potential.remove(0);
        want_to_find.parsed.push(first);
        proof {
            assert(want_to_find.potential@ == original_item.potential@.drop_first());
            assert(want_to_find@ == shift_view(original_item@));
        }
        let mut i: usize = 0;
        while i < items.len()
            invariant
                grammar_laws::<N, T>(),
                want_to_find@ == shift_view(original_item@),
                lr0_views(items@).contains(shift_view(original_item@)),
                i <= items.len(),
                forall|j: int| 0 <= j < i ==> lr0_views(items@)[j] != want_to_find@,
            decreases items.len() - i,
        {
            if lr0_item_eq(&items[i], &want_to_find) {
                return Lr0ItemIndex(i);
            }
            i = i + 1;
        }
        proof {
            let j = choose|j: int| 0 <= j < lr0_views(items@).len() && lr0_views(items@)[j] == shift_view(original_item@);
            assert(false);
        }
        Lr0ItemIndex(0)
    }
}

/// A symbol of the input as a symbol on the parse stack.
pub open spec fn terminal_as_item<N: ItemTrait, T: ItemTrait>(t: Terminal<T>) -> Item<N, T> {
    match t {
        Terminal::Terminal(x) => Item::Terminal(x),
        Terminal::Epsilon => Item::Epsilon,
        Terminal::EndOfInput => Item::EndOfInput,
    }
}

/// Turns a symbol of the input into a symbol on the parse stack.
pub fn terminal_into_item<N: ItemTrait, T: ItemTrait>(t: Terminal<T>) -> (r: Item<N, T>)
    ensures
        r == terminal_as_item::<N, T>(t),
{
    match t {
        Terminal::Terminal(x) => Item::Terminal(x),
        Terminal::Epsilon => Item::Epsilon,
        Terminal::EndOfInput => Item::EndOfInput,
    }
}

/// The input of a parser as it is held: the terminals in order followed by
/// the end of input, reversed, so that the next one to read is the last.
pub open spec fn pending_input<T: ItemTrait>(input: Seq<T>) -> Seq<Terminal<T>> {
    input.map_values(|x: T| Terminal::Terminal(x)).push(Terminal::EndOfInput).reverse()
}

/// Pending input is read from its first terminal: the next terminal to
/// shift is the first one, and what remains is the pending input of the rest;
/// with no terminal left, the end of input is read last.
pub proof fn lemma_pending_input_reads_in_order<T: ItemTrait>(input: Seq<T>)
    ensures
        input.len() > 0 ==> pending_input(input).last() == Terminal::Terminal(input[0])
            && pending_input(input).drop_last() == pending_input(input.drop_first()),
        input.len() == 0 ==> pending_input(input) == seq![Terminal::<T>::EndOfInput],
{
    let p = pending_input(input);
    let m = input.map_values(|x: T| Terminal::Terminal(x));
    if input.len() > 0 {
        let q = pending_input(input.drop_first());
        let m2 = input.drop_first().map_values(|x: T| Terminal::Terminal(x));
        assert(p.len() == input.len() + 1);
        assert(p.last() == m.push(Terminal::EndOfInput)[0]);
        assert forall|a: int| 0 <= a < q.len() implies #[trigger] p.drop_last()[a] == q[a] by {
            assert(p.drop_last()[a] == m.push(Terminal::EndOfInput)[input.len() - a]);
            assert(q[a] == m2.push(Terminal::EndOfInput)[input.len() - 1 - a]);
            if a > 0 {
                assert(m2[input.len() - 1 - a] == Terminal::Terminal(input[input.len() - a]));
            }
        }
        assert(p.drop_last() == q);
    } else {
        assert(p == seq![Terminal::<T>::EndOfInput]);
    }
}

/// Every LR(0) item of a production splits its body: the parsed part
/// followed by the expected part is the body.
pub proof fn lemma_split_reassembles<N: ItemTrait, T: ItemTrait>(
    production: Production<N, T>,
    i: int,
)
    requires
        0 <= i <= production.1@.len(),
    ensures
        split_view(production, i).0 == production.0,
        split_view(production, i).1 + split_view(production, i).2 == production.1@,
        split_view(production, i).1.len() == i,
{
    assert(production.1@.take(i) + production.1@.skip(i) == production.1@);
}

/// A configuration of a shift-reduce parser.
pub struct Configuration<N: ItemTrait, T: ItemTrait> {
    stack: Vec<Item<N, T>>,
    input: Vec<Terminal<T>>,
}

impl<N: ItemTrait, T: ItemTrait> Configuration<N, T> {
    /// The parse stack, bottom first.
    pub closed spec fn spec_stack(self) -> Seq<Item<N, T>> {
        self.stack@
    }

    /// The input still to read, the next terminal last.
    pub closed spec fn spec_input(self) -> Seq<Terminal<T>> {
        self.input@
    }

    /// The start configuration for `input`: the stack holds the end-of-input
    /// marker, and all of `input` followed by the end of input is still to read.
    pub fn new(input: Vec<T>) -> (c: Self)
        ensures
            c.spec_stack() == seq![Item::<N, T>::EndOfInput],
            c.spec_input() == pending_input(input@),
    {
        let mut stack: Vec<Item<N, T>> = Vec::new();
        stack.push(Item::EndOfInput);
        let ghost all = input@;
        let mut input = input;
        let mut pending: Vec<Terminal<T>> = Vec::new();
        pending.push(Terminal::EndOfInput);
        while input.len() > 0
            invariant
                input@ == all.take(input@.len() as int),
                input@.len() <= all.len(),
                pending@ == pending_input(all).take(all.len() - input@.len() + 1),
            decreases input@.len(),
        {
            let ghost before = pending@;
            let ghost k = input@.len();
            match input.pop() {
                Some(x) => {
                    pending.push(Terminal::Terminal(x));
                    proof {
                        let p = pending_input(all);
                        assert(p[all.len() - k + 1] == Terminal::Terminal(all[k - 1]));
                        assert(p.take(all.len() - k + 2) == p.take(all.len() - k + 1).push(
                            p[all.len() - k + 1],
                        ));
                        assert(input@ == all.take(k - 1));
                    }
                },
                None => {},
            }
        }
        proof {
            assert(pending_input(all).take(all.len() + 1int) == pending_input(all));
        }
        Configuration { stack, input: pending }
    }

    /// The parse stack, bottom first.
    pub fn stack(&self) -> (r: &Vec<Item<N, T>>)
        ensures
            r@ == self.spec_stack(),
    {
        &self.stack
    }

    /// The input still to read, the next terminal last.
    pub fn input(&self) -> (r: &Vec<Terminal<T>>)
        ensures
            r@ == self.spec_input(),
    {
        &self.input
    }

    /// Moves the next terminal of the input onto the stack; fails, changing
    /// nothing, when the input is exhausted.
    pub fn try_shift(&mut self) -> (r: Result<(), ()>)
        ensures
            old(self).spec_input().len() == 0 ==> r is Err && final(self).spec_input() == old(
                self,
            ).spec_input() && final(self).spec_stack() == old(self).spec_stack(),
            old(self).spec_input().len() > 0 ==> r is Ok && final(self).spec_input() == old(
                self,
            ).spec_input().drop_last() && final(self).spec_stack() == old(self).spec_stack().push(
                terminal_as_item(old(self).spec_input().last()),
            ),
    {
        if let Some(t) = self.input.pop() {
            self.stack.push(terminal_into_item(t));
            Ok(())
        } else {
            Err(())
        }
    }

    /// Reduces by `production`: the top of the stack, compared symbol by symbol
    /// with the body taken from its end, is replaced by the head.
    ///
    /// The comparison of a body's last symbol reads one place above the top
    /// of the stack, which does not exist; only a production with an empty
    /// body can be reduced.
    pub fn try_reduce(&mut self, production: &Production<N, T>) -> (r: Result<(), ()>)
        requires
            grammar_laws::<N, T>(),
            production.1@.len() == 0,
        ensures
            r is Ok,
            final(self).spec_stack() == old(self).spec_stack().push(Item::NonTerminal(production.0)),
            final(self).spec_input() == old(self).spec_input(),
    {
        let body_len = production.1.len();
        let mut matches = true;
        let mut i: usize = 0;
        while i < body_len
            invariant
                body_len == production.1@.len(),
                body_len == 0,
                matches,
            decreases body_len - i,
        {
            let stack_element = &self.stack[self.stack.len() - i];
            let production_element = &production.1[body_len - 1 - i];
            if !item_eq(stack_element, production_element) {
                matches = false;
                break;
            }
            i = i + 1;
        }
        if matches {
            let keep = self.stack.len() - body_len;
            self.stack.truncate(keep);
            self.stack.push(Item::NonTerminal(symbol_clone(&production.0)));
            proof {
                assert(old(self).stack@.subrange(0, keep as int) == old(self).stack@);
            }
            Ok(())
        } else {
            Err(())
        }
    }
}

// ---------------------------------------------------------------------------
// The NFA of LR(0) items.
// ---------------------------------------------------------------------------

/// Moving the dot of any item that still expects a symbol gives an item of the list.
pub open spec fn shift_closed<N: ItemTrait, T: ItemTrait>(items: Seq<Lr0View<N, T>>) -> bool {
    forall|i: int|
        0 <= i < items.len() && (#[trigger] items[i]).2.len() > 0 ==> items.contains(
            shift_view(items[i]),
        )
}

/// The item expects a terminal or the end of input next.
pub open spec fn expects_terminal<N: ItemTrait, T: ItemTrait>(v: Lr0View<N, T>) -> bool {
    v.2.len() > 0 && (v.2[0] is Terminal || v.2[0] is EndOfInput)
}

/// The item expects a nonterminal next.
pub open spec fn expects_non_terminal<N: ItemTrait, T: ItemTrait>(v: Lr0View<N, T>) -> bool {
    v.2.len() > 0 && v.2[0] is NonTerminal
}

/// `e` is the transition of item `e.0.0` on the terminal it expects, to the
/// first item that has the dot moved over that terminal.
pub open spec fn is_terminal_edge<N: ItemTrait, T: ItemTrait>(
    items: Seq<Lr0View<N, T>>,
    e: ((Lr0ItemIndex, Terminal<T>), Lr0ItemIndex),
) -> bool {
    let i = e.0.0.0 as int;
    &&& 0 <= i < items.len()
    &&& expects_terminal(items[i])
    &&& e.0.1 == match items[i].2[0] {
        Item::Terminal(c) => Terminal::Terminal(c),
        _ => Terminal::EndOfInput,
    }
    &&& is_first_index(items, shift_view(items[i]), e.1.0 as int)
}

/// `e` is the transition of item `e.0.0` on the nonterminal it expects, to
/// the first item that has the dot moved over that nonterminal.
pub open spec fn is_non_terminal_edge<N: ItemTrait, T: ItemTrait>(
    items: Seq<Lr0View<N, T>>,
    e: ((Lr0ItemIndex, N), Lr0ItemIndex),
) -> bool {
    let i = e.0.0.0 as int;
    &&& 0 <= i < items.len()
    &&& items[i].2.len() > 0
    &&& items[i].2[0] == Item::<N, T>::NonTerminal(e.0.1)
    &&& is_first_index(items, shift_view(items[i]), e.1.0 as int)
}

/// The terminal transitions of `items`, one for each item that expects a
/// terminal, in the order of the items.
pub open spec fn terminal_table_correct<N: ItemTrait, T: ItemTrait>(
    items: Seq<Lr0View<N, T>>,
    tbl: Seq<((Lr0ItemIndex, Terminal<T>), Lr0ItemIndex)>,
) -> bool {
    &&& forall|a: int| 0 <= a < tbl.len() ==> is_terminal_edge(items, #[trigger] tbl[a])
    &&& forall|a: int, b: int| 0 <= a < b < tbl.len() ==> tbl[a].0.0.0 < tbl[b].0.0.0
    &&& forall|i: int|
        0 <= i < items.len() && expects_terminal(#[trigger] items[i]) ==> exists|a: int|
            0 <= a < tbl.len() && #[trigger] tbl[a].0.0.0 == i
}

/// The nonterminal transitions of `items`, one for each item that expects a
/// nonterminal, in the order of the items.
pub open spec fn non_terminal_table_correct<N: ItemTrait, T: ItemTrait>(
    items: Seq<Lr0View<N, T>>,
    tbl: Seq<((Lr0ItemIndex, N), Lr0ItemIndex)>,
) -> bool {
    &&& forall|a: int| 0 <= a < tbl.len() ==> is_non_terminal_edge(items, #[trigger] tbl[a])
    &&& forall|a: int, b: int| 0 <= a < b < tbl.len() ==> tbl[a].0.0.0 < tbl[b].0.0.0
    &&& forall|i: int|
        0 <= i < items.len() && expects_non_terminal(#[trigger] items[i]) ==> exists|a: int|
            0 <= a < tbl.len() && #[trigger] tbl[a].0.0.0 == i
}

proof fn lemma_all_splits_shift_closed<N: ItemTrait, T: ItemTrait>(prods: Seq<Production<N, T>>)
    ensures
        shift_closed(all_splits(prods)),
    decreases prods.len(),
{
    let all = all_splits(prods);
    if prods.len() > 0 {
        let init = prods.drop_last();
        let last = prods.last();
        let ai = all_splits(init);
        let ps = production_splits(last);
        lemma_all_splits_shift_closed(init);
        assert forall|a: int| 0 <= a < all.len() && (#[trigger] all[a]).2.len() > 0 implies all.contains(
            shift_view(all[a]),
        ) by {
            if a < ai.len() {
                assert(all[a] == ai[a]);
                let b = choose|b: int| 0 <= b < ai.len() && ai[b] == shift_view(ai[a]);
                assert(all[b] == ai[b]);
            } else {
                let k = a - ai.len();
                let rhs = last.1@;
                assert(all[a] == ps[k]);
                assert(ps[k] == split_view(last, k));
                assert(k < rhs.len());
                assert(rhs.take(k + 1) == rhs.take(k).push(rhs[k]));
                assert(rhs.skip(k + 1) == rhs.skip(k).drop_first());
                assert(all[a + 1] == ps[k + 1]);
                assert(shift_view(all[a]) == all[a + 1]);
            }
        }
    }
}

/// Each item has at most one entry of epsilon destinations, and every
/// destination is a position of an item.
pub open spec fn epsilon_table_valid(
    items_len: int,
    eps: Seq<(Lr0ItemIndex, Vec<Lr0ItemIndex>)>,
) -> bool {
    &&& keys_distinct(eps)
    &&& forall|a: int, b: int|
        0 <= a < eps.len() && 0 <= b < eps[a].1@.len() ==> (#[trigger] eps[a].1@[b]).0 < items_len
}

/// An epsilon transition leads from the item `v` to the item `w`: the entry
/// for the first position of `v` lists a position holding `w`.
pub open spec fn epsilon_step<N: ItemTrait, T: ItemTrait>(
    items: Seq<Lr0View<N, T>>,
    eps: Seq<(Lr0ItemIndex, Vec<Lr0ItemIndex>)>,
    v: Lr0View<N, T>,
    w: Lr0View<N, T>,
) -> bool {
    exists|a: int, b: int|
        0 <= a < eps.len() && is_first_index(items, v, eps[a].0.0 as int) && 0 <= b
            < eps[a].1@.len() && items[(#[trigger] eps[a].1@[b]).0 as int] == w
}

/// `path` starts at an item satisfying `roots` and follows epsilon
/// transitions from each item to the next.
pub open spec fn is_epsilon_path<N: ItemTrait, T: ItemTrait>(
    items: Seq<Lr0View<N, T>>,
    eps: Seq<(Lr0ItemIndex, Vec<Lr0ItemIndex>)>,
    roots: spec_fn(Lr0View<N, T>) -> bool,
    path: Seq<Lr0View<N, T>>,
) -> bool {
    &&& path.len() > 0
    &&& roots(path[0])
    &&& forall|i: int|
        0 <= i < path.len() - 1 ==> #[trigger] epsilon_step(items, eps, path[i], path[i + 1])
}

/// `w` is in the epsilon closure of the items satisfying `roots`: some
/// epsilon path from a root ends at `w`.
pub open spec fn in_epsilon_closure<N: ItemTrait, T: ItemTrait>(
    items: Seq<Lr0View<N, T>>,
    eps: Seq<(Lr0ItemIndex, Vec<Lr0ItemIndex>)>,
    roots: spec_fn(Lr0View<N, T>) -> bool,
    w: Lr0View<N, T>,
) -> bool {
    exists|path: Seq<Lr0View<N, T>>| #[trigger] is_epsilon_path(items, eps, roots, path) && path.last() == w
}

/// The items of a sequence, as a predicate.
pub open spec fn member_of<N: ItemTrait, T: ItemTrait>(s: Seq<Lr0View<N, T>>) -> spec_fn(
    Lr0View<N, T>,
) -> bool {
    |v: Lr0View<N, T>| s.contains(v)
}

/// A set that holds every root and is closed under epsilon transitions holds
/// the end of every epsilon path.
proof fn lemma_closure_contained<N: ItemTrait, T: ItemTrait>(
    items: Seq<Lr0View<N, T>>,
    eps: Seq<(Lr0ItemIndex, Vec<Lr0ItemIndex>)>,
    roots: spec_fn(Lr0View<N, T>) -> bool,
    s: Seq<Lr0View<N, T>>,
    path: Seq<Lr0View<N, T>>,
)
    requires
        forall|v: Lr0View<N, T>| #[trigger] roots(v) ==> s.contains(v),
        forall|v: Lr0View<N, T>, w2: Lr0View<N, T>|
            s.contains(v) && #[trigger] epsilon_step(items, eps, v, w2) ==> s.contains(w2),
        is_epsilon_path(items, eps, roots, path),
    ensures
        s.contains(path.last()),
    decreases path.len(),
{
    if path.len() > 1 {
        let shorter = path.drop_last();
        assert forall|i: int| 0 <= i < shorter.len() - 1 implies #[trigger] epsilon_step(
            items,
            eps,
            shorter[i],
            shorter[i + 1],
        ) by {
            assert(epsilon_step(items, eps, path[i], path[i + 1]));
        }
        lemma_closure_contained(items, eps, roots, s, shorter);
        let i = path.len() - 2;
        assert(epsilon_step(items, eps, path[i], path[i + 1]));
        assert(shorter.last() == path[i]);
    }
}

/// An epsilon transition from the end of an epsilon path extends the path.
proof fn lemma_epsilon_path_extends<N: ItemTrait, T: ItemTrait>(
    items: Seq<Lr0View<N, T>>,
    eps: Seq<(Lr0ItemIndex, Vec<Lr0ItemIndex>)>,
    roots: spec_fn(Lr0View<N, T>) -> bool,
    path: Seq<Lr0View<N, T>>,
    w: Lr0View<N, T>,
)
    requires
        is_epsilon_path(items, eps, roots, path),
        epsilon_step(items, eps, path.last(), w),
    ensures
        is_epsilon_path(items, eps, roots, path.push(w)),
        in_epsilon_closure(items, eps, roots, w),
{
    let longer = path.push(w);
    assert forall|i: int| 0 <= i < longer.len() - 1 implies #[trigger] epsilon_step(
        items,
        eps,
        longer[i],
        longer[i + 1],
    ) by {
        if i < path.len() - 1 {
            assert(epsilon_step(items, eps, path[i], path[i + 1]));
        } else {
            assert(longer[i] == path.last());
            assert(longer[i + 1] == w);
        }
    }
    assert(longer.last() == w);
    assert(is_epsilon_path(items, eps, roots, longer));
}

/// Two first positions of the same item are the same.
proof fn lemma_first_index_unique<N: ItemTrait, T: ItemTrait>(
    items: Seq<Lr0View<N, T>>,
    v: Lr0View<N, T>,
    a: int,
    b: int,
)
    requires
        is_first_index(items, v, a),
        is_first_index(items, v, b),
    ensures
        a == b,
{
}

/// Adds `extra` to the destinations recorded for `key`; a key that has no
/// entry yet gets none.
fn extend_existing(
    table: &mut Vec<(Lr0ItemIndex, Vec<Lr0ItemIndex>)>,
    key: Lr0ItemIndex,
    extra: &Vec<Lr0ItemIndex>,
)
    ensures
        (forall|a: int| 0 <= a < old(table)@.len() ==> old(table)@[a].0 != key)
            ==> final(table)@ == old(table)@,
        forall|a: int|
            0 <= a < old(table)@.len() && old(table)@[a].0 == key && (forall|b: int|
                0 <= b < a ==> old(table)@[b].0 != key) ==> final(table)@.len() == old(table)@.len()
                && final(table)@[a].0 == key && final(table)@[a].1@ == old(table)@[a].1@ + extra@
                && forall|b: int| 0 <= b < old(table)@.len() && b != a ==> final(table)@[b] == old(
                table,
            )@[b],
{
    let mut a: usize = 0;
    while a < table.len()
        invariant
            a <= table@.len(),
            forall|b: int| 0 <= b < a ==> table@[b].0 != key,
            table@ == old(table)@,
        decreases table@.len() - a,
    {
        if table[a].0.0 == key.0 {
            for e in 0..extra.len()
                invariant
                    a < table@.len(),
                    table@.len() == old(table)@.len(),
                    table@[a as int].0 == key,
                    table@[a as int].1@ == old(table)@[a as int].1@ + extra@.take(e as int),
                    forall|b: int| 0 <= b < old(table)@.len() && b != a ==> table@[b] == old(table)@[b],
            {
                table[a].1.push(extra[e]);
                assert(extra@.take(e + 1) == extra@.take(e as int).push(extra@[e as int]));
            }
            assert(extra@.take(extra@.len() as int) == extra@);
            return;
        }
        a = a + 1;
    }
}

/// The nondeterministic automaton of LR(0) items of a grammar.
pub struct Lr0ItemNfa<N: ItemTrait, T: ItemTrait> {
    items: Vec<Lr0Item<N, T>>,
    terminal_transitions: Vec<((Lr0ItemIndex, Terminal<T>), Lr0ItemIndex)>,
    non_terminal_transitions: Vec<((Lr0ItemIndex, N), Lr0ItemIndex)>,
    epsilon_transitions: Vec<(Lr0ItemIndex, Vec<Lr0ItemIndex>)>,
}

impl<N: ItemTrait, T: ItemTrait> Lr0ItemNfa<N, T> {
    /// The items are closed under moving the dot, the transitions are those
    /// of the items, and the epsilon destinations are positions of items.
    #[verifier::type_invariant]
    spec fn well_formed(self) -> bool {
        &&& shift_closed(lr0_views(self.items@))
        &&& terminal_table_correct(lr0_views(self.items@), self.terminal_transitions@)
        &&& non_terminal_table_correct(lr0_views(self.items@), self.non_terminal_transitions@)
        &&& epsilon_table_valid(self.items@.len() as int, self.epsilon_transitions@)
    }

    /// The items of the automaton.
    pub closed spec fn spec_items(self) -> Seq<Lr0Item<N, T>> {
        self.items@
    }

    /// Its transitions on terminals.
    pub closed spec fn spec_terminal_transitions(self) -> Seq<((Lr0ItemIndex, Terminal<T>), Lr0ItemIndex)> {
        self.terminal_transitions@
    }

    /// Its transitions on nonterminals.
    pub closed spec fn spec_non_terminal_transitions(self) -> Seq<((Lr0ItemIndex, N), Lr0ItemIndex)> {
        self.non_terminal_transitions@
    }

    /// Its epsilon transitions.
    pub closed spec fn spec_epsilon_transitions(self) -> Seq<(Lr0ItemIndex, Vec<Lr0ItemIndex>)> {
        self.epsilon_transitions@
    }

    /// Builds the automaton: all LR(0) items of all productions, and a
    /// transition from each item that expects a symbol to the item with the
    /// dot moved over it.
    pub fn new(productions: &Vec<Production<N, T>>) -> (nfa: Self)
        requires
            grammar_laws::<N, T>(),
            productions_distinct(productions@),
        ensures
            lr0_views(nfa.spec_items()) == all_splits(productions@),
            terminal_table_correct(lr0_views(nfa.spec_items()), nfa.spec_terminal_transitions()),
            non_terminal_table_correct(
                lr0_views(nfa.spec_items()),
                nfa.spec_non_terminal_transitions(),
            ),
            nfa.spec_epsilon_transitions().len() == 0,
    {
        let mut items: Vec<Lr0Item<N, T>> = Vec::new();
        for pi in 0..productions.len()
            invariant
                grammar_laws::<N, T>(),
                lr0_views(items@) == all_splits(productions@.take(pi as int)),
        {
            let mut its = Lr0Item::from_production(&productions[pi]);
            let ghost before = items@;
            items.append(&mut its);
            proof {
                let taken = productions@.take(pi + 1);
                assert(taken.drop_last() == productions@.take(pi as int));
                assert(taken.last() == productions@[pi as int]);
                assert(lr0_views(items@) == lr0_views(before) + production_splits(productions@[pi as int]));
            }
        }
        proof {
            assert(productions@.take(productions@.len() as int) == productions@);
            lemma_all_splits_shift_closed(productions@);
        }
        let ghost views = lr0_views(items@);
        let mut terminal_transitions: Vec<((Lr0ItemIndex, Terminal<T>), Lr0ItemIndex)> = Vec::new();
        let mut non_terminal_transitions: Vec<((Lr0ItemIndex, N), Lr0ItemIndex)> = Vec::new();
        let mut epsilon_transitions: Vec<(Lr0ItemIndex, Vec<Lr0ItemIndex>)> = Vec::new();
        for i in 0..items.len()
            invariant
                grammar_laws::<N, T>(),
                views == lr0_views(items@),
                shift_closed(views),
                epsilon_transitions@.len() == 0,
                forall|a: int| 0 <= a < terminal_transitions@.len() ==> is_terminal_edge(views, #[trigger] terminal_transitions@[a]),
                forall|a: int| 0 <= a < terminal_transitions@.len() ==> (#[trigger] terminal_transitions@[a]).0.0.0 < i,
                forall|a: int, b: int| 0 <= a < b < terminal_transitions@.len() ==> terminal_transitions@[a].0.0.0 < terminal_transitions@[b].0.0.0,
                forall|i2: int| 0 <= i2 < i && expects_terminal(#[trigger] views[i2]) ==> exists|a: int|
                    0 <= a < terminal_transitions@.len() && #[trigger] terminal_transitions@[a].0.0.0 == i2,
                forall|a: int| 0 <= a < non_terminal_transitions@.len() ==> is_non_terminal_edge(views, #[trigger] non_terminal_transitions@[a]),
                forall|a: int| 0 <= a < non_terminal_transitions@.len() ==> (#[trigger] non_terminal_transitions@[a]).0.0.0 < i,
                forall|a: int, b: int| 0 <= a < b < non_terminal_transitions@.len() ==> non_terminal_transitions@[a].0.0.0 < non_terminal_transitions@[b].0.0.0,
                forall|i2: int| 0 <= i2 < i && expects_non_terminal(#[trigger] views[i2]) ==> exists|a: int|
                    0 <= a < non_terminal_transitions@.len() && #[trigger] non_terminal_transitions@[a].0.0.0 == i2,
        {
            let item = &items[i];
            let ghost v = views[i as int];
            assert(item@ == v);
            if item.potential.len() > 0 {
                proof {
                    assert(views.contains(shift_view(v)));
                }
                let ghost tt_before = terminal_transitions@;
                let ghost nt_before = non_terminal_transitions@;
                match &item.potential[0] {
                    Item::NonTerminal(n) => {
                        let shifted = Lr0Item::find_shifted_item(item, items.as_slice());
                        non_terminal_transitions.push(((Lr0ItemIndex(i), symbol_clone(n)), shifted));
                        let mut epsilon_destinations: Vec<Lr0ItemIndex> = Vec::new();
                        for d in 0..items.len()
                            invariant
                                grammar_laws::<N, T>(),
                        {
                            if symbol_eq(&items[d].nonterminal, n) && items[d].parsed.len() == 0 {
                                epsilon_destinations.push(Lr0ItemIndex(d));
                            }
                        }
                        extend_existing(&mut epsilon_transitions, Lr0ItemIndex(i), &epsilon_destinations);
                        proof {
                            let last = non_terminal_transitions@.len() - 1;
                            assert(is_non_terminal_edge(views, non_terminal_transitions@[last]));
                            assert forall|i2: int| 0 <= i2 < i + 1 && expects_non_terminal(#[trigger] views[i2]) implies exists|a: int|
                                0 <= a < non_terminal_transitions@.len() && #[trigger] non_terminal_transitions@[a].0.0.0 == i2 by {
                                if i2 < i {
                                    let a = choose|a: int| 0 <= a < nt_before.len() && #[trigger] nt_before[a].0.0.0 == i2;
                                    assert(non_terminal_transitions@[a] == nt_before[a]);
                                } else {
                                    assert(non_terminal_transitions@[last].0.0.0 == i2);
                                }
                            }
                        }
                    },
                    Item::Epsilon => {
                        let shifted = Lr0Item::find_shifted_item(item, items.as_slice());
                        let mut one: Vec<Lr0ItemIndex> = Vec::new();
                        one.push(shifted);
                        extend_existing(&mut epsilon_transitions, Lr0ItemIndex(i), &one);
                    },
                    x => {
                        let x = match x {
                            Item::Terminal(c) => Terminal::Terminal(symbol_clone(c)),
                            _ => Terminal::EndOfInput,
                        };
                        let shifted = Lr0Item::find_shifted_item(item, items.as_slice());
                        terminal_transitions.push(((Lr0ItemIndex(i), x), shifted));
                        proof {
                            let last = terminal_transitions@.len() - 1;
                            assert(is_terminal_edge(views, terminal_transitions@[last]));
                            assert forall|i2: int| 0 <= i2 < i + 1 && expects_terminal(#[trigger] views[i2]) implies exists|a: int|
                                0 <= a < terminal_transitions@.len() && #[trigger] terminal_transitions@[a].0.0.0 == i2 by {
                                if i2 < i {
                                    let a = choose|a: int| 0 <= a < tt_before.len() && #[trigger] tt_before[a].0.0.0 == i2;
                                    assert(terminal_transitions@[a] == tt_before[a]);
                                } else {
                                    assert(terminal_transitions@[last].0.0.0 == i2);
                                }
                            }
                        }
                    },
                }
            }
        }
        Self { items, terminal_transitions, non_terminal_transitions, epsilon_transitions }
    }

    /// The position of the first item of the automaton equal to `item`.
    pub fn get_item_index(&self, item: &Lr0Item<N, T>) -> (r: Lr0ItemIndex)
        requires
            grammar_laws::<N, T>(),
            lr0_views(self.spec_items()).contains(item@),
        ensures
            is_first_index(lr0_views(self.spec_items()), item@, r.0 as int),
    {
        let ghost views = lr0_views(self.items@);
        let mut i: usize = 0;
        while i < self.items.len()
            invariant
                grammar_laws::<N, T>(),
                views == lr0_views(self.items@),
                views.contains(item@),
                i <= self.items@.len(),
                forall|j: int| 0 <= j < i ==> views[j] != item@,
            decreases self.items@.len() - i,
        {
            if lr0_item_eq(&self.items[i], item) {
                return Lr0ItemIndex(i);
            }
            i = i + 1;
        }
        proof {
            let j = choose|j: int| 0 <= j < views.len() && views[j] == item@;
            assert(false);
        }
        Lr0ItemIndex(0)
    }

    /// The items of the automaton.
    pub fn items(&self) -> (r: &Vec<Lr0Item<N, T>>)
        ensures
            r@ == self.spec_items(),
            shift_closed(lr0_views(r@)),
    {
        proof {
            use_type_invariant(self);
        }
        &self.items
    }

    /// The transitions on terminals.
    pub fn terminal_transitions(&self) -> (r: &Vec<((Lr0ItemIndex, Terminal<T>), Lr0ItemIndex)>)
        ensures
            r@ == self.spec_terminal_transitions(),
            terminal_table_correct(lr0_views(self.spec_items()), r@),
    {
        proof {
            use_type_invariant(self);
        }
        &self.terminal_transitions
    }

    /// The transitions on nonterminals.
    pub fn non_terminal_transitions(&self) -> (r: &Vec<((Lr0ItemIndex, N), Lr0ItemIndex)>)
        ensures
            r@ == self.spec_non_terminal_transitions(),
            non_terminal_table_correct(lr0_views(self.spec_items()), r@),
    {
        proof {
            use_type_invariant(self);
        }
        &self.non_terminal_transitions
    }

    /// The epsilon transitions.
    pub fn epsilon_transitions(&self) -> (r: &Vec<(Lr0ItemIndex, Vec<Lr0ItemIndex>)>)
        ensures
            r@ == self.spec_epsilon_transitions(),
            epsilon_table_valid(self.spec_items().len() as int, r@),
    {
        proof {
            use_type_invariant(self);
        }
        &self.epsilon_transitions
    }
}

// ---------------------------------------------------------------------------
// The DFA of sets of LR(0) items.
// ---------------------------------------------------------------------------

/// Position of a state of the DFA.
#[derive(Debug, Clone, Copy, PartialEq, Eq, PartialOrd, Ord, Hash)]
pub struct StateIndex(pub usize);

/// Copies a list of LR(0) items.
fn lr0_items_clone<N: ItemTrait, T: ItemTrait>(v: &Vec<Lr0Item<N, T>>) -> (r: Vec<Lr0Item<N, T>>)
    requires
        grammar_laws::<N, T>(),
    ensures
        lr0_views(r@) == lr0_views(v@),
{
    let mut r: Vec<Lr0Item<N, T>> = Vec::new();
    for k in 0..v.len()
        invariant
            grammar_laws::<N, T>(),
            lr0_views(r@) == lr0_views(v@).take(k as int),
    {
        let ghost before = r@;
        r.push(lr0_item_clone(&v[k]));
        proof {
            assert(lr0_views(r@) == lr0_views(before).push(v@[k as int]@));
            assert(lr0_views(v@).take(k + 1) == lr0_views(v@).take(k as int).push(v@[k as int]@));
        }
    }
    proof {
        assert(lr0_views(v@).take(v@.len() as int) == lr0_views(v@));
    }
    r
}

/// Tells whether `group` holds an item equal to `item`.
fn group_contains<N: ItemTrait, T: ItemTrait>(group: &Vec<Lr0Item<N, T>>, item: &Lr0Item<N, T>) -> (r:
    bool)
    requires
        grammar_laws::<N, T>(),
    ensures
        r == lr0_views(group@).contains(item@),
{
    for k in 0..group.len()
        invariant
            grammar_laws::<N, T>(),
            forall|j: int| 0 <= j < k ==> lr0_views(group@)[j] != item@,
    {
        if lr0_item_eq(&group[k], item) {
            assert(lr0_views(group@)[k as int] == item@);
            return true;
        }
    }
    false
}

/// The epsilon destinations recorded for `key`, or none.
fn epsilon_destinations_of(
    table: &Vec<(Lr0ItemIndex, Vec<Lr0ItemIndex>)>,
    key: Lr0ItemIndex,
) -> (r: Vec<Lr0ItemIndex>)
    ensures
        (forall|a: int| 0 <= a < table@.len() ==> table@[a].0 != key) ==> r@.len() == 0,
        (exists|a: int| 0 <= a < table@.len() && table@[a].0 == key) ==> exists|a: int|
            0 <= a < table@.len() && table@[a].0 == key && r@ == table@[a].1@,
{
    for a in 0..table.len()
        invariant
            forall|b: int| 0 <= b < a ==> table@[b].0 != key,
    {
        if table[a].0.0 == key.0 {
            let mut r: Vec<Lr0ItemIndex> = Vec::new();
            let count = table[a].1.len();
            for e in 0..count
                invariant
                    a < table@.len(),
                    count == table@[a as int].1@.len(),
                    r@ == table@[a as int].1@.take(e as int),
            {
                r.push(table[a].1[e]);
                assert(table@[a as int].1@.take(e + 1) == table@[a as int].1@.take(e as int).push(
                    table@[a as int].1@[e as int],
                ));
            }
            assert(table@[a as int].1@.take(table@[a as int].1@.len() as int) == table@[a as int].1@);
            assert(table@[a as int].0 == key);
            return r;
        }
    }
    Vec::new()
}

/// Adds `value` to the items recorded for the symbol `key`; a symbol that
/// has no entry yet gets none.
fn push_to_existing<N: ItemTrait, T: ItemTrait>(
    table: &mut Vec<(Item<N, T>, Vec<Lr0Item<N, T>>)>,
    key: &Item<N, T>,
    value: Lr0Item<N, T>,
)
    requires
        grammar_laws::<N, T>(),
    ensures
        (forall|a: int| 0 <= a < old(table)@.len() ==> old(table)@[a].0 != *key)
            ==> final(table)@ == old(table)@,
        forall|a: int|
            0 <= a < old(table)@.len() && old(table)@[a].0 == *key && (forall|b: int|
                0 <= b < a ==> old(table)@[b].0 != *key) ==> final(table)@.len() == old(
                table,
            )@.len() && final(table)@[a].0 == *key && final(table)@[a].1@ == old(table)@[a].1@.push(
                value,
            ) && forall|b: int| 0 <= b < old(table)@.len() && b != a ==> final(table)@[b] == old(
                table,
            )@[b],
{
    let mut a: usize = 0;
    while a < table.len()
        invariant
            grammar_laws::<N, T>(),
            a <= table@.len(),
            table@ == old(table)@,
            forall|b: int| 0 <= b < a ==> table@[b].0 != *key,
        decreases table@.len() - a,
    {
        if item_eq(&table[a].0, key) {
            table[a].1.push(value);
            return;
        }
        a = a + 1;
    }
}

/// Records the transition `key -> value`, replacing an earlier one for `key`.
fn insert_transition<N: ItemTrait, T: ItemTrait>(
    table: &mut Vec<((StateIndex, Item<N, T>), StateIndex)>,
    key: (StateIndex, Item<N, T>),
    value: StateIndex,
)
    requires
        grammar_laws::<N, T>(),
    ensures
        forall|a: int|
            0 <= a < old(table)@.len() && old(table)@[a].0 == key && (forall|b: int|
                0 <= b < a ==> old(table)@[b].0 != key) ==> final(table)@ == old(table)@.update(
                a,
                (key, value),
            ),
        (forall|a: int| 0 <= a < old(table)@.len() ==> old(table)@[a].0 != key)
            ==> final(table)@ == old(table)@.push((key, value)),
{
    let mut a: usize = 0;
    while a < table.len()
        invariant
            grammar_laws::<N, T>(),
            a <= table@.len(),
            table@ == old(table)@,
            forall|b: int| 0 <= b < a ==> table@[b].0 != key,
        decreases table@.len() - a,
    {
        if table[a].0.0.0 == key.0.0 && item_eq(&table[a].0.1, &key.1) {
            table.set(a, (key, value));
            return;
        }
        a = a + 1;
    }
    table.push((key, value));
}

/// The item begins a derivation of the start symbol: nothing parsed yet.
pub open spec fn is_start_item<N: ItemTrait, T: ItemTrait>(v: Lr0View<N, T>, start_symbol: N) -> bool {
    v.1.len() == 0 && v.0 == start_symbol
}

/// `group` holds exactly the items of `items` that begin a derivation of `start_symbol`.
pub open spec fn is_start_group<N: ItemTrait, T: ItemTrait>(
    group: Seq<Lr0View<N, T>>,
    items: Seq<Lr0View<N, T>>,
    start_symbol: N,
) -> bool {
    forall|v: Lr0View<N, T>|
        #![trigger group.contains(v)]
        #![trigger items.contains(v)]
        group.contains(v) <==> (items.contains(v) && is_start_item(v, start_symbol))
}

/// The items of `items` that begin a derivation of `start_symbol`, as a predicate.
pub open spec fn start_items<N: ItemTrait, T: ItemTrait>(
    items: Seq<Lr0View<N, T>>,
    start_symbol: N,
) -> spec_fn(Lr0View<N, T>) -> bool {
    |v: Lr0View<N, T>| items.contains(v) && is_start_item(v, start_symbol)
}

/// Without epsilon transitions, the epsilon closure of a set of items is the
/// set itself.
pub proof fn lemma_closure_without_epsilon<N: ItemTrait, T: ItemTrait>(
    items: Seq<Lr0View<N, T>>,
    eps: Seq<(Lr0ItemIndex, Vec<Lr0ItemIndex>)>,
    roots: spec_fn(Lr0View<N, T>) -> bool,
    v: Lr0View<N, T>,
)
    requires
        eps.len() == 0,
    ensures
        in_epsilon_closure(items, eps, roots, v) <==> roots(v),
{
    if in_epsilon_closure(items, eps, roots, v) {
        let path = choose|path: Seq<Lr0View<N, T>>|
            #[trigger] is_epsilon_path(items, eps, roots, path) && path.last() == v;
        if path.len() > 1 {
            let i: int = 0;
            assert(epsilon_step(items, eps, path[i], path[i + 1]));
        }
    }
    if roots(v) {
        let path = seq![v];
        assert(is_epsilon_path(items, eps, roots, path));
    }
}

/// The item expects a symbol other than the empty string.
pub open spec fn has_group_transition<N: ItemTrait, T: ItemTrait>(v: Lr0View<N, T>) -> bool {
    v.2.len() > 0 && !(v.2[0] is Epsilon)
}

/// The deterministic automaton whose states are sets of LR(0) items.
pub struct Dfa<N: ItemTrait, T: ItemTrait> {
    states: Vec<Vec<Lr0Item<N, T>>>,
    transitions: Vec<((StateIndex, Item<N, T>), StateIndex)>,
}

impl<N: ItemTrait, T: ItemTrait> Dfa<N, T> {
    /// The states, each a set of items.
    pub closed spec fn spec_states(self) -> Seq<Vec<Lr0Item<N, T>>> {
        self.states@
    }

    /// The transitions between states.
    pub closed spec fn spec_transitions(self) -> Seq<((StateIndex, Item<N, T>), StateIndex)> {
        self.transitions@
    }

    /// The states, each a set of items.
    pub fn states(&self) -> (r: &Vec<Vec<Lr0Item<N, T>>>)
        ensures
            r@ == self.spec_states(),
    {
        &self.states
    }

    /// The transitions between states.
    pub fn transitions(&self) -> (r: &Vec<((StateIndex, Item<N, T>), StateIndex)>)
        ensures
            r@ == self.spec_transitions(),
    {
        &self.transitions
    }

    /// Builds the automaton by exploring, from the group of items that begin
    /// a derivation of `start_symbol`, the groups reached by the transitions
    /// collected for each symbol. Transitions are only collected for symbols
    /// that already have an entry, and none has one, so the automaton has the
    /// epsilon closure of the start items as its single state and no
    /// transition.
    pub fn new(nfa: Lr0ItemNfa<N, T>, start_symbol: &N) -> (dfa: Self)
        requires
            grammar_laws::<N, T>(),
        ensures
            dfa.spec_states().len() == 1,
            lr0_views(dfa.spec_states()[0]@).no_duplicates(),
            forall|v: Lr0View<N, T>|
                lr0_views(dfa.spec_states()[0]@).contains(v) <==> in_epsilon_closure(
                    lr0_views(nfa.spec_items()),
                    nfa.spec_epsilon_transitions(),
                    start_items(lr0_views(nfa.spec_items()), *start_symbol),
                    v,
                ),
            dfa.spec_transitions().len() == 0,
    {
        proof {
            use_type_invariant(&nfa);
        }
        let ghost nviews = lr0_views(nfa.items@);
        let ghost start = *start_symbol;
        let ghost eps = nfa.epsilon_transitions@;
        let ghost sroots = start_items(nviews, start);
        let mut handled_states: Vec<Vec<Lr0Item<N, T>>> = Vec::new();
        let mut need_to_handle: Vec<(Option<(StateIndex, Item<N, T>)>, Vec<Lr0Item<N, T>>)> =
            Vec::new();
        let mut transitions: Vec<((StateIndex, Item<N, T>), StateIndex)> = Vec::new();

        let mut roots: Vec<Lr0Item<N, T>> = Vec::new();
        for k in 0..nfa.items.len()
            invariant
                grammar_laws::<N, T>(),
                nviews == lr0_views(nfa.items@),
                start == *start_symbol,
                forall|a: int|
                    0 <= a < roots@.len() ==> is_start_item(#[trigger] roots@[a]@, start)
                        && nviews.contains(roots@[a]@),
                forall|b: int|
                    0 <= b < k && is_start_item(#[trigger] nviews[b], start) ==> lr0_views(
                        roots@,
                    ).contains(nviews[b]),
        {
            let ghost before = roots@;
            let keep = nfa.items[k].parsed.len() == 0 && symbol_eq(
                &nfa.items[k].nonterminal,
                start_symbol,
            );
            if keep {
                roots.push(lr0_item_clone(&nfa.items[k]));
            }
            proof {
                assert(nviews[k as int] == nfa.items@[k as int]@);
                assert(keep == is_start_item(nviews[k as int], start));
                assert(nviews.contains(nviews[k as int]));
                assert forall|b: int|
                    0 <= b < k + 1 && is_start_item(#[trigger] nviews[b], start) implies lr0_views(
                        roots@,
                    ).contains(nviews[b]) by {
                    if b < k {
                        let a = choose|a: int| 0 <= a < lr0_views(before).len() && lr0_views(before)[a] == nviews[b];
                        assert(roots@[a] == before[a]);
                        assert(lr0_views(roots@)[a] == nviews[b]);
                    } else {
                        assert(lr0_views(roots@)[before.len() as int] == nviews[b]);
                    }
                }
                assert forall|a: int| 0 <= a < roots@.len() implies is_start_item(#[trigger] roots@[a]@, start)
                    && nviews.contains(roots@[a]@) by {
                    if a < before.len() {
                        assert(roots@[a] == before[a]);
                    }
                }
            }
        }
        proof {
            assert forall|v: Lr0View<N, T>| lr0_views(roots@).contains(v) <==> (nviews.contains(v)
                && is_start_item(v, start)) by {
                if lr0_views(roots@).contains(v) {
                    let a = choose|a: int| 0 <= a < lr0_views(roots@).len() && lr0_views(roots@)[a] == v;
                    assert(roots@[a]@ == v);
                }
                if nviews.contains(v) && is_start_item(v, start) {
                    let b = choose|b: int| 0 <= b < nviews.len() && nviews[b] == v;
                }
            }
        }
        let ghost root_views = lr0_views(roots@);
        need_to_handle.push((None, roots));
        assert(is_start_group(root_views, nviews, start));

        loop
            invariant
                grammar_laws::<N, T>(),
                nviews == lr0_views(nfa.items@),
                start == *start_symbol,
                shift_closed(nviews),
                eps == nfa.epsilon_transitions@,
                sroots == start_items(nviews, start),
                is_start_group(root_views, nviews, start),
                handled_states@.len() + need_to_handle@.len() == 1,
                need_to_handle@.len() == 1 ==> need_to_handle@[0].0 is None && lr0_views(
                    need_to_handle@[0].1@,
                ) == root_views,
                handled_states@.len() == 1 ==> lr0_views(handled_states@[0]@).no_duplicates(),
                handled_states@.len() == 1 ==> forall|v: Lr0View<N, T>|
                    #[trigger] lr0_views(handled_states@[0]@).contains(v) ==> nviews.contains(v),
                handled_states@.len() == 1 ==> forall|v: Lr0View<N, T>|
                    #[trigger] lr0_views(handled_states@[0]@).contains(v) <==> in_epsilon_closure(nviews, eps, sroots, v),
                transitions@.len() == 0,
            ensures
                handled_states@.len() == 1,
                lr0_views(handled_states@[0]@).no_duplicates(),
                forall|v: Lr0View<N, T>|
                    #[trigger] lr0_views(handled_states@[0]@).contains(v) <==> in_epsilon_closure(nviews, eps, sroots, v),
                transitions@.len() == 0,
            decreases need_to_handle@.len(),
        {
            let ghost queue = need_to_handle@;
            match need_to_handle.pop() {
                None => {
                    break;
                },
                Some(entry) => {
                    let (prior_connection, state) = entry;
                    proof {
                        assert(queue.len() == 1);
                        assert(prior_connection is None);
                        assert(lr0_views(state@) == root_views);
                        assert forall|k: int| 0 <= k < state@.len() implies nviews.contains(#[trigger] state@[k]@) by {
                            assert(lr0_views(state@)[k] == state@[k]@);
                            assert(root_views.contains(state@[k]@));
                            assert(is_start_group(root_views, nviews, start));
                        }
                    }
                    proof {
                        assert(member_of(lr0_views(state@)) =~= sroots) by {
                            assert forall|v: Lr0View<N, T>| #[trigger] member_of(lr0_views(state@))(v) == sroots(v) by {
                                assert(is_start_group(root_views, nviews, start));
                            }
                        }
                    }
                    let state = Self::get_item_group(&state, &nfa);
                    handled_states.push(state);
                    let current_state_index = StateIndex(handled_states.len() - 1);
                    if let Some((prior_state, segment)) = prior_connection {
                        insert_transition(&mut transitions, (prior_state, segment), current_state_index);
                    }
                    let state = lr0_items_clone(&handled_states[handled_states.len() - 1]);
                    proof {
                        assert(handled_states@.len() == 1);
                    }
                    let mut new_transitions: Vec<(Item<N, T>, Vec<Lr0Item<N, T>>)> = Vec::new();
                    for k in 0..state.len()
                        invariant
                            grammar_laws::<N, T>(),
                            nviews == lr0_views(nfa.items@),
                            shift_closed(nviews),
                            forall|v: Lr0View<N, T>| #[trigger] lr0_views(state@).contains(v) ==> nviews.contains(v),
                            new_transitions@.len() == 0,
                    {
                        let item = &state[k];
                        if item.potential.len() > 0 {
                            proof {
                                assert(lr0_views(state@)[k as int] == item@);
                                assert(lr0_views(state@).contains(item@));
                                assert(nviews.contains(item@));
                                let a = choose|a: int| 0 <= a < nviews.len() && nviews[a] == item@;
                                assert(nviews[a].2.len() > 0);
                                assert(nviews.contains(shift_view(nviews[a])));
                            }
                            let x = &item.potential[0];
                            let shifted = Lr0Item::find_shifted_item(item, nfa.items.as_slice());
                            let next = &nfa.items[shifted.0];
                            push_to_existing(&mut new_transitions, x, lr0_item_clone(next));
                        }
                    }
                    let ghost handled_now = handled_states@;
                    for t in 0..new_transitions.len()
                        invariant
                            new_transitions@.len() == 0,
                            need_to_handle@.len() == 0,
                            transitions@.len() == 0,
                            handled_states@ == handled_now,
                    {
                        let segment = &new_transitions[t].0;
                        let items = &new_transitions[t].1;
                        let mut item_group_index: Option<StateIndex> = None;
                        for h in 0..handled_states.len()
                            invariant
                                t < new_transitions@.len(),
                                new_transitions@.len() == 0,
                        {
                            if group_contains(&handled_states[h], &items[0]) {
                                item_group_index = Some(StateIndex(h));
                                break;
                            }
                        }
                        match item_group_index {
                            Some(index) => {
                                insert_transition(&mut transitions, (current_state_index, item_clone(segment)), index);
                            },
                            None => {
                                need_to_handle.push((Some((current_state_index, item_clone(segment))), lr0_items_clone(items)));
                            },
                        }
                    }
                },
            }
        }
        Dfa { states: handled_states, transitions }
    }

    /// The set of items reachable from `root_items` through epsilon
    /// transitions of `nfa`, without repeats: starting from the root items,
    /// each pass looks for an item of the group with an epsilon destination
    /// outside it, and adds all destinations of that item, until a pass adds
    /// nothing.
    pub fn get_item_group(root_items: &Vec<Lr0Item<N, T>>, nfa: &Lr0ItemNfa<N, T>) -> (r: Vec<
        Lr0Item<N, T>,
    >)
        requires
            grammar_laws::<N, T>(),
            forall|k: int|
                0 <= k < root_items@.len() ==> lr0_views(nfa.spec_items()).contains(
                    #[trigger] root_items@[k]@,
                ),
        ensures
            lr0_views(r@).no_duplicates(),
            forall|v: Lr0View<N, T>|
                lr0_views(r@).contains(v) ==> lr0_views(nfa.spec_items()).contains(v),
            forall|v: Lr0View<N, T>|
                lr0_views(r@).contains(v) <==> in_epsilon_closure(
                    lr0_views(nfa.spec_items()),
                    nfa.spec_epsilon_transitions(),
                    member_of(lr0_views(root_items@)),
                    v,
                ),
    {
        proof {
            use_type_invariant(nfa);
        }
        let ghost nviews = lr0_views(nfa.items@);
        let ghost roots = lr0_views(root_items@);
        let mut result: Vec<Lr0Item<N, T>> = Vec::new();
        for k in 0..root_items.len()
            invariant
                grammar_laws::<N, T>(),
                roots == lr0_views(root_items@),
                lr0_views(result@).no_duplicates(),
                forall|v: Lr0View<N, T>|
                    lr0_views(result@).contains(v) <==> roots.take(k as int).contains(v),
        {
            let ghost before = result@;
            let present = group_contains(&result, &root_items[k]);
            if !present {
                result.push(lr0_item_clone(&root_items[k]));
                proof {
                    assert(lr0_views(result@) == lr0_views(before).push(root_items@[k as int]@));
                }
            }
            proof {
                let t0 = roots.take(k as int);
                let t1 = roots.take(k + 1);
                assert(t1 == t0.push(roots[k as int]));
                let rv = lr0_views(result@);
                let bv = lr0_views(before);
                assert forall|v: Lr0View<N, T>| rv.contains(v) <==> t1.contains(v) by {
                    if t1.contains(v) && v == roots[k as int] {
                        if present {
                            assert(rv == bv);
                        } else {
                            assert(rv[bv.len() as int] == v);
                        }
                        assert(rv.contains(v));
                    }
                    if rv.contains(v) && !bv.contains(v) {
                        let a = choose|a: int| 0 <= a < rv.len() && rv[a] == v;
                        assert(a == bv.len());
                        assert(t1[k as int] == v);
                    }
                    if bv.contains(v) {
                        let a = choose|a: int| 0 <= a < bv.len() && bv[a] == v;
                        assert(rv[a] == v);
                    }
                    if t0.contains(v) {
                        let a = choose|a: int| 0 <= a < t0.len() && t0[a] == v;
                        assert(t1[a] == v);
                    }
                    if t1.contains(v) && v != roots[k as int] {
                        let a = choose|a: int| 0 <= a < t1.len() && t1[a] == v;
                        assert(t0[a] == v);
                    }
                }
            }
        }
        proof {
            assert(roots.take(root_items@.len() as int) == roots);
        }
        let ghost eps = nfa.epsilon_transitions@;
        let ghost rootp = member_of(roots);
        proof {
            let rv = lr0_views(result@);
            assert forall|i: int| 0 <= i < rv.len() implies nviews.contains(#[trigger] rv[i]) by {
                assert(rv.contains(rv[i]));
                let k = choose|k: int| 0 <= k < roots.len() && roots[k] == rv[i];
                assert(roots[k] == root_items@[k]@);
            }
            lemma_distinct_len_bound(rv, nviews);
        }
        proof {
            assert forall|v: Lr0View<N, T>| lr0_views(result@).contains(v) implies nviews.contains(v)
                && in_epsilon_closure(nviews, eps, rootp, v) by {
                assert(roots.contains(v));
                assert(is_epsilon_path(nviews, eps, rootp, seq![v]));
                let k = choose|k: int| 0 <= k < roots.len() && roots[k] == v;
                assert(roots[k] == root_items@[k]@);
            }
        }
        let mut changed = true;
        while changed
            invariant
                grammar_laws::<N, T>(),
                nviews == lr0_views(nfa.items@),
                eps == nfa.epsilon_transitions@,
                epsilon_table_valid(nviews.len() as int, eps),
                roots == lr0_views(root_items@),
                rootp == member_of(roots),
                lr0_views(result@).no_duplicates(),
                forall|v: Lr0View<N, T>| #[trigger] lr0_views(result@).contains(v) ==> nviews.contains(v)
                    && in_epsilon_closure(nviews, eps, rootp, v),
                forall|v: Lr0View<N, T>| #[trigger] roots.contains(v) ==> lr0_views(result@).contains(v),
                result@.len() <= nviews.len(),
                !changed ==> forall|v: Lr0View<N, T>, w: Lr0View<N, T>|
                    lr0_views(result@).contains(v) && #[trigger] epsilon_step(nviews, eps, v, w)
                        ==> lr0_views(result@).contains(w),
            decreases nviews.len() - result@.len() + if changed {
                1int
            } else {
                0int
            },
        {
            changed = false;
            let ghost start = result@;
            let mut k: usize = 0;
            while k < result.len()
                invariant_except_break
                    !changed,
                    result@ == start,
                    k <= result@.len(),
                    forall|k2: int, w: Lr0View<N, T>|
                        0 <= k2 < k && #[trigger] epsilon_step(nviews, eps, lr0_views(result@)[k2], w)
                            ==> lr0_views(result@).contains(w),
                invariant
                    grammar_laws::<N, T>(),
                    nviews == lr0_views(nfa.items@),
                    eps == nfa.epsilon_transitions@,
                    epsilon_table_valid(nviews.len() as int, eps),
                    roots == lr0_views(root_items@),
                    rootp == member_of(roots),
                    lr0_views(result@).no_duplicates(),
                    forall|v: Lr0View<N, T>| #[trigger] lr0_views(result@).contains(v) ==> nviews.contains(v)
                        && in_epsilon_closure(nviews, eps, rootp, v),
                    forall|v: Lr0View<N, T>| #[trigger] roots.contains(v) ==> lr0_views(result@).contains(v),
                ensures
                    changed ==> result@.len() > start.len(),
                    !changed ==> result@ == start,
                    !changed ==> forall|v: Lr0View<N, T>, w: Lr0View<N, T>|
                        lr0_views(result@).contains(v) && #[trigger] epsilon_step(nviews, eps, v, w)
                            ==> lr0_views(result@).contains(w),
                    lr0_views(result@).no_duplicates(),
                    forall|v: Lr0View<N, T>| #[trigger] lr0_views(result@).contains(v) ==> nviews.contains(v)
                        && in_epsilon_closure(nviews, eps, rootp, v),
                    forall|v: Lr0View<N, T>| #[trigger] roots.contains(v) ==> lr0_views(result@).contains(v),
                decreases result@.len() - k,
            {
                let ghost rv = lr0_views(result@);
                let ghost v = rv[k as int];
                proof {
                    assert(rv.contains(v));
                }
                let index = nfa.get_item_index(&result[k]);
                let new_items = epsilon_destinations_of(&nfa.epsilon_transitions, index);
                let ghost entry: int = if exists|a: int| 0 <= a < eps.len() && eps[a].0 == index {
                    choose|a: int| 0 <= a < eps.len() && eps[a].0 == index && new_items@ == eps[a].1@
                } else {
                    -1
                };
                proof {
                    assert(result@[k as int]@ == v);
                    if entry >= 0 {
                        assert forall|b: int| 0 <= b < new_items@.len() implies (#[trigger] new_items@[b]).0 < nviews.len() by {
                            assert(eps[entry].1@[b] == new_items@[b]);
                        }
                    }
                }
                let mut any_new = false;
                let mut x: usize = 0;
                while x < new_items.len()
                    invariant
                        grammar_laws::<N, T>(),
                        nviews == lr0_views(nfa.items@),
                        result@ == start,
                        rv == lr0_views(result@),
                        x <= new_items@.len(),
                        new_items@.len() > 0 ==> entry >= 0,
                        entry >= 0 ==> forall|b: int| 0 <= b < new_items@.len() ==> (#[trigger] new_items@[b]).0 < nviews.len(),
                        forall|x2: int| 0 <= x2 < x ==> rv.contains(nviews[(#[trigger] new_items@[x2]).0 as int]),
                        any_new ==> x < new_items@.len() && !rv.contains(nviews[new_items@[x as int].0 as int]),
                    ensures
                        x <= new_items@.len(),
                        forall|x2: int| 0 <= x2 < x ==> rv.contains(nviews[(#[trigger] new_items@[x2]).0 as int]),
                        any_new ==> x < new_items@.len() && !rv.contains(nviews[new_items@[x as int].0 as int]),
                        !any_new ==> x == new_items@.len(),
                    decreases new_items@.len() - x + if any_new { 0int } else { 1int },
                {
                    if !group_contains(&result, &nfa.items[new_items[x].0]) {
                        any_new = true;
                        break;
                    }
                    x = x + 1;
                }
                if any_new {
                    let ghost x0 = x as int;
                    let ghost pv = choose|p: Seq<Lr0View<N, T>>| #[trigger] is_epsilon_path(nviews, eps, rootp, p) && p.last() == v;
                    let mut y: usize = 0;
                    while y < new_items.len()
                        invariant
                            grammar_laws::<N, T>(),
                            nviews == lr0_views(nfa.items@),
                            eps == nfa.epsilon_transitions@,
                            0 <= entry < eps.len(),
                            eps[entry].0 == index,
                            new_items@ == eps[entry].1@,
                            is_first_index(nviews, v, index.0 as int),
                            is_epsilon_path(nviews, eps, rootp, pv),
                            pv.last() == v,
                            forall|b: int| 0 <= b < new_items@.len() ==> (#[trigger] new_items@[b]).0 < nviews.len(),
                            0 <= x0 < new_items@.len(),
                            !lr0_views(start).contains(nviews[new_items@[x0].0 as int]),
                            y > x0 ==> result@.len() > start.len(),
                            y <= new_items@.len(),
                            lr0_views(result@).no_duplicates(),
                            forall|w: Lr0View<N, T>| #[trigger] lr0_views(result@).contains(w) ==> nviews.contains(w)
                                && in_epsilon_closure(nviews, eps, rootp, w),
                            forall|w: Lr0View<N, T>| #[trigger] lr0_views(start).contains(w) ==> lr0_views(result@).contains(w),
                            result@.len() >= start.len(),
                            y <= x0 ==> result@ == start,
                            forall|x2: int| 0 <= x2 < x0 ==> lr0_views(start).contains(nviews[(#[trigger] new_items@[x2]).0 as int]),
                        decreases new_items@.len() - y,
                    {
                        let d = new_items[y].0;
                        let it = &nfa.items[d];
                        let ghost before = result@;
                        if !group_contains(&result, it) {
                            result.push(lr0_item_clone(it));
                            proof {
                                let w = nviews[d as int];
                                assert(it@ == w);
                                assert(lr0_views(result@) == lr0_views(before).push(w));
                                assert(epsilon_step(nviews, eps, v, w)) by {
                                    assert(eps[entry].1@[y as int] == new_items@[y as int]);
                                }
                                lemma_epsilon_path_extends(nviews, eps, rootp, pv, w);
                                assert(nviews.contains(w));
                                assert forall|u: Lr0View<N, T>| #[trigger] lr0_views(result@).contains(u) implies nviews.contains(u)
                                    && in_epsilon_closure(nviews, eps, rootp, u) by {
                                    let i = choose|i: int| 0 <= i < lr0_views(result@).len() && lr0_views(result@)[i] == u;
                                    if i < before.len() {
                                        assert(lr0_views(before)[i] == u);
                                        assert(lr0_views(before).contains(u));
                                    } else {
                                        assert(u == w);
                                    }
                                }
                                assert forall|u: Lr0View<N, T>| #[trigger] lr0_views(start).contains(u) implies lr0_views(result@).contains(u) by {
                                    assert(lr0_views(before).contains(u));
                                    let i = choose|i: int| 0 <= i < lr0_views(before).len() && lr0_views(before)[i] == u;
                                    assert(lr0_views(result@)[i] == u);
                                }
                            }
                        } else {
                            proof {
                                if y as int == x0 {
                                    assert(lr0_views(before).contains(nviews[d as int]));
                                    assert(before == start);
                                    assert(false);
                                }
                            }
                        }
                        y = y + 1;
                    }
                    changed = true;
                    break;
                }
                proof {
                    assert forall|k2: int, w: Lr0View<N, T>|
                        0 <= k2 < k + 1 && #[trigger] epsilon_step(nviews, eps, lr0_views(result@)[k2], w)
                            implies lr0_views(result@).contains(w) by {
                        if k2 == k {
                            let (a, b) = choose|a: int, b: int|
                                0 <= a < eps.len() && is_first_index(nviews, v, eps[a].0.0 as int) && 0 <= b
                                    < eps[a].1@.len() && nviews[(#[trigger] eps[a].1@[b]).0 as int] == w;
                            lemma_first_index_unique(nviews, v, eps[a].0.0 as int, index.0 as int);
                            assert(eps[a].0 == index);
                            assert(entry >= 0);
                            if a != entry {
                                assert(keys_distinct(eps));
                                if a < entry {
                                    assert(eps[a].0 != eps[entry].0);
                                } else {
                                    assert(eps[entry].0 != eps[a].0);
                                }
                            }
                            assert(new_items@[b] == eps[a].1@[b]);
                        }
                    }
                }
                k = k + 1;
            }
            proof {
                let rv = lr0_views(result@);
                assert forall|i: int| 0 <= i < rv.len() implies nviews.contains(#[trigger] rv[i]) by {
                    assert(rv.contains(rv[i]));
                }
                lemma_distinct_len_bound(rv, nviews);
            }
        }
        proof {
            assert forall|v: Lr0View<N, T>|
                lr0_views(result@).contains(v) <==> in_epsilon_closure(nviews, eps, rootp, v) by {
                if in_epsilon_closure(nviews, eps, rootp, v) {
                    let p = choose|p: Seq<Lr0View<N, T>>| #[trigger] is_epsilon_path(nviews, eps, rootp, p) && p.last() == v;
                    assert forall|u: Lr0View<N, T>| #[trigger] rootp(u) implies lr0_views(result@).contains(u) by {
                        assert(roots.contains(u));
                    }
                    lemma_closure_contained(nviews, eps, rootp, lr0_views(result@), p);
                }
            }
        }
        result
    }

    /// The items of `group` that expect a symbol other than the empty string,
    /// in order.
    pub fn get_group_transitions<'a>(group: &'a Vec<Lr0Item<N, T>>) -> (r: Vec<&'a Lr0Item<N, T>>)
        ensures
            r@.map_values(|x: &Lr0Item<N, T>| x@) == lr0_views(group@).filter(
                |v: Lr0View<N, T>| has_group_transition(v),
            ),
    {
        let ghost pred = |v: Lr0View<N, T>| has_group_transition(v);
        let mut r: Vec<&'a Lr0Item<N, T>> = Vec::new();
        for k in 0..group.len()
            invariant
                pred == (|v: Lr0View<N, T>| has_group_transition(v)),
                r@.map_values(|x: &Lr0Item<N, T>| x@) == lr0_views(group@).take(k as int).filter(pred),
        {
            let x = &group[k];
            let keep = x.potential.len() > 0 && !matches!(x.potential[0], Item::Epsilon);
            let ghost before = r@;
            if keep {
                r.push(x);
            }
            proof {
                let vs = lr0_views(group@);
                assert(vs.take(k + 1) == vs.take(k as int).push(vs[k as int]));
                vs.take(k as int).lemma_filter_push(vs[k as int], pred);
                assert(keep == pred(vs[k as int]));
                if keep {
                    assert(r@.map_values(|x: &Lr0Item<N, T>| x@) == before.map_values(
                        |x: &Lr0Item<N, T>| x@,
                    ).push(x@));
                } else {
                    assert(r@ == before);
                }
            }
        }
        proof {
            assert(lr0_views(group@).take(group@.len() as int) == lr0_views(group@));
        }
        r
    }
}

// ---------------------------------------------------------------------------
// Laws of the item automata.
// ---------------------------------------------------------------------------

/// The items of a production: one for each position of the dot, from the
/// start of its body to its end; the item at position `k` has the head of
/// the production, the first `k` symbols of its body as parsed part, and the
/// rest as expected part.
pub proof fn lemma_production_items_law<N: ItemTrait, T: ItemTrait>(
    production: Production<N, T>,
    items: Seq<Lr0View<N, T>>,
)
    requires
        items == production_splits(production),
    ensures
        items.len() == production.1@.len() + 1,
        forall|k: int|
            0 <= k < items.len() ==> (#[trigger] items[k]).0 == production.0 && items[k].1.len() == k
                && items[k].1 + items[k].2 == production.1@,
{
    assert forall|k: int| 0 <= k < items.len() implies (#[trigger] items[k]).0 == production.0
        && items[k].1.len() == k && items[k].1 + items[k].2 == production.1@ by {
        assert(items[k] == split_view(production, k));
        assert(production.1@.take(k) + production.1@.skip(k) == production.1@);
    }
}

/// The items of the automaton of a list of productions are exactly the
/// items of each production with the dot at each position of its body.
pub proof fn lemma_automaton_items_law<N: ItemTrait, T: ItemTrait>(
    prods: Seq<Production<N, T>>,
    v: Lr0View<N, T>,
)
    ensures
        all_splits(prods).contains(v) <==> exists|p: int, k: int|
            0 <= p < prods.len() && 0 <= k <= prods[p].1@.len() && v == (
                prods[p].0,
                #[trigger] prods[p].1@.subrange(0, k),
                prods[p].1@.subrange(k, prods[p].1@.len() as int),
            ),
    decreases prods.len(),
{
    if prods.len() > 0 {
        let init = prods.drop_last();
        let last = prods.last();
        let ai = all_splits(init);
        let ps = production_splits(last);
        let all = all_splits(prods);
        assert(all == ai + ps);
        lemma_automaton_items_law(init, v);
        if all.contains(v) {
            let a = choose|a: int| 0 <= a < all.len() && all[a] == v;
            if a < ai.len() {
                assert(ai[a] == v);
                let (p, k) = choose|p: int, k: int|
                    0 <= p < init.len() && 0 <= k <= init[p].1@.len() && v == (
                        init[p].0,
                        #[trigger] init[p].1@.subrange(0, k),
                        init[p].1@.subrange(k, init[p].1@.len() as int),
                    );
                assert(prods[p] == init[p]);
                assert(v == (
                    prods[p].0,
                    prods[p].1@.subrange(0, k),
                    prods[p].1@.subrange(k, prods[p].1@.len() as int),
                ));
            } else {
                let k = a - ai.len();
                let pl = prods.len() - 1;
                assert(ps[k] == v);
                assert(prods[pl] == last);
                assert(v == (
                    prods[pl].0,
                    prods[pl].1@.subrange(0, k),
                    prods[pl].1@.subrange(k, prods[pl].1@.len() as int),
                ));
            }
        }
        if exists|p: int, k: int|
            0 <= p < prods.len() && 0 <= k <= prods[p].1@.len() && v == (
                prods[p].0,
                #[trigger] prods[p].1@.subrange(0, k),
                prods[p].1@.subrange(k, prods[p].1@.len() as int),
            ) {
            let (p, k) = choose|p: int, k: int|
                0 <= p < prods.len() && 0 <= k <= prods[p].1@.len() && v == (
                    prods[p].0,
                    #[trigger] prods[p].1@.subrange(0, k),
                    prods[p].1@.subrange(k, prods[p].1@.len() as int),
                );
            if p < prods.len() - 1 {
                assert(init[p] == prods[p]);
                assert(v == (
                    init[p].0,
                    init[p].1@.subrange(0, k),
                    init[p].1@.subrange(k, init[p].1@.len() as int),
                ));
                assert(ai.contains(v));
                let a = choose|a: int| 0 <= a < ai.len() && ai[a] == v;
                assert(all[a] == v);
            } else {
                assert(prods[p] == last);
                assert(ps[k] == v);
                assert(all[ai.len() + k] == v);
            }
        }
    }
}

/// Moving the dot moves exactly one symbol: the item found has the same
/// head, one more parsed symbol, the first expected symbol of the original,
/// and the rest of its expected symbols; it is the first item that does.
pub proof fn lemma_shifted_item_moves_one_symbol<N: ItemTrait, T: ItemTrait>(
    items: Seq<Lr0Item<N, T>>,
    original: Lr0Item<N, T>,
    r: Lr0ItemIndex,
)
    requires
        original.potential@.len() > 0,
        is_first_index(lr0_views(items), shift_view(original@), r.0 as int),
    ensures
        r.0 < items.len(),
        items[r.0 as int].nonterminal == original.nonterminal,
        items[r.0 as int].parsed@ == original.parsed@.push(original.potential@[0]),
        items[r.0 as int].potential@ == original.potential@.subrange(
            1,
            original.potential@.len() as int,
        ),
        items[r.0 as int].parsed@ + items[r.0 as int].potential@ == original.parsed@
            + original.potential@,
        forall|j: int|
            0 <= j < r.0 ==> !((#[trigger] items[j]).nonterminal == original.nonterminal
                && items[j].parsed@ == original.parsed@.push(original.potential@[0])
                && items[j].potential@ == original.potential@.subrange(
                1,
                original.potential@.len() as int,
            )),
{
    let views = lr0_views(items);
    assert(views[r.0 as int] == items[r.0 as int]@);
    let pa = original.parsed@;
    let po = original.potential@;
    assert(pa.push(po[0]) + po.subrange(1, po.len() as int) == pa + po);
    assert forall|j: int| 0 <= j < r.0 implies !((#[trigger] items[j]).nonterminal == original.nonterminal
        && items[j].parsed@ == pa.push(po[0]) && items[j].potential@ == po.subrange(
        1,
        po.len() as int,
    )) by {
        assert(views[j] == items[j]@);
        assert(views[j] != shift_view(original@));
    }
}

/// The index found for an item is a position of the list holding an equal
/// item, and no earlier position holds one.
pub proof fn lemma_item_index_law<N: ItemTrait, T: ItemTrait>(
    items: Seq<Lr0Item<N, T>>,
    item: Lr0Item<N, T>,
    r: Lr0ItemIndex,
)
    requires
        is_first_index(lr0_views(items), item@, r.0 as int),
    ensures
        r.0 < items.len(),
        items[r.0 as int].nonterminal == item.nonterminal,
        items[r.0 as int].parsed@ == item.parsed@,
        items[r.0 as int].potential@ == item.potential@,
        forall|j: int|
            0 <= j < r.0 ==> !((#[trigger] items[j]).nonterminal == item.nonterminal
                && items[j].parsed@ == item.parsed@ && items[j].potential@ == item.potential@),
{
    let views = lr0_views(items);
    assert(views[r.0 as int] == items[r.0 as int]@);
    assert forall|j: int| 0 <= j < r.0 implies !((#[trigger] items[j]).nonterminal == item.nonterminal
        && items[j].parsed@ == item.parsed@ && items[j].potential@ == item.potential@) by {
        assert(views[j] == items[j]@);
    }
}

/// Every item that expects a terminal or the end of input, whatever its
/// parsed part, has a transition on that symbol, to an item with the same
/// head, that symbol moved to the end of the parsed part, and the rest of
/// the expected part.
pub proof fn lemma_terminal_transition_exists<N: ItemTrait, T: ItemTrait>(
    items: Seq<Lr0View<N, T>>,
    tbl: Seq<((Lr0ItemIndex, Terminal<T>), Lr0ItemIndex)>,
    i: int,
) -> (a: int)
    requires
        terminal_table_correct(items, tbl),
        0 <= i < items.len(),
        items[i].2.len() > 0,
        items[i].2[0] is Terminal || items[i].2[0] is EndOfInput,
    ensures
        0 <= a < tbl.len(),
        tbl[a].0.0.0 == i,
        tbl[a].0.1 == match items[i].2[0] {
            Item::Terminal(c) => Terminal::Terminal(c),
            _ => Terminal::<T>::EndOfInput,
        },
        tbl[a].1.0 < items.len(),
        items[tbl[a].1.0 as int] == (items[i].0, items[i].1.push(items[i].2[0]), items[i].2.drop_first()),
{
    assert(expects_terminal(items[i]));
    let a = choose|a: int| 0 <= a < tbl.len() && #[trigger] tbl[a].0.0.0 == i;
    assert(is_terminal_edge(items, tbl[a]));
    a
}

/// Every terminal transition leaves an item that expects that terminal (or
/// the end of input) next, and leads to that item with the symbol moved to
/// the end of its parsed part.
pub proof fn lemma_terminal_transition_sound<N: ItemTrait, T: ItemTrait>(
    items: Seq<Lr0View<N, T>>,
    tbl: Seq<((Lr0ItemIndex, Terminal<T>), Lr0ItemIndex)>,
    a: int,
)
    requires
        terminal_table_correct(items, tbl),
        0 <= a < tbl.len(),
    ensures
        tbl[a].0.0.0 < items.len(),
        items[tbl[a].0.0.0 as int].2.len() > 0,
        tbl[a].0.1 == match items[tbl[a].0.0.0 as int].2[0] {
            Item::Terminal(c) => Terminal::Terminal(c),
            Item::EndOfInput => Terminal::<T>::EndOfInput,
            _ => Terminal::<T>::Epsilon,
        },
        tbl[a].0.1 != Terminal::<T>::Epsilon,
        tbl[a].1.0 < items.len(),
        items[tbl[a].1.0 as int] == ({
            let v = items[tbl[a].0.0.0 as int];
            (v.0, v.1.push(v.2[0]), v.2.drop_first())
        }),
{
    assert(is_terminal_edge(items, tbl[a]));
}

/// Every item that expects a nonterminal has a transition on it, to the item
/// with that nonterminal moved to the end of its parsed part; and every
/// nonterminal transition is of that kind.
pub proof fn lemma_non_terminal_transition_law<N: ItemTrait, T: ItemTrait>(
    items: Seq<Lr0View<N, T>>,
    tbl: Seq<((Lr0ItemIndex, N), Lr0ItemIndex)>,
    i: int,
    a: int,
)
    requires
        non_terminal_table_correct(items, tbl),
    ensures
        0 <= i < items.len() && items[i].2.len() > 0 && items[i].2[0] is NonTerminal ==> exists|b: int|
            0 <= b < tbl.len() && #[trigger] tbl[b].0.0.0 == i,
        0 <= a < tbl.len() ==> tbl[a].0.0.0 < items.len() && tbl[a].1.0 < items.len() && items[tbl[
            a
        ].0.0.0 as int].2.len() > 0 && items[tbl[a].0.0.0 as int].2[0] == Item::<N, T>::NonTerminal(
            tbl[a].0.1,
        ) && items[tbl[a].1.0 as int] == ({
            let v = items[tbl[a].0.0.0 as int];
            (v.0, v.1.push(v.2[0]), v.2.drop_first())
        }),
{
    if 0 <= i < items.len() && items[i].2.len() > 0 && items[i].2[0] is NonTerminal {
        assert(expects_non_terminal(items[i]));
    }
    if 0 <= a < tbl.len() {
        assert(is_non_terminal_edge(items, tbl[a]));
    }
}

/// The group of items is closed under epsilon transitions: it holds every
/// root, and for every item of it, every destination listed for the first
/// position of that item.
pub proof fn lemma_item_group_closed<N: ItemTrait, T: ItemTrait>(
    items: Seq<Lr0View<N, T>>,
    eps: Seq<(Lr0ItemIndex, Vec<Lr0ItemIndex>)>,
    roots: Seq<Lr0View<N, T>>,
    group: Seq<Lr0View<N, T>>,
)
    requires
        forall|u: Lr0View<N, T>|
            #[trigger] group.contains(u) <==> in_epsilon_closure(items, eps, member_of(roots), u),
    ensures
        forall|u: Lr0View<N, T>| #[trigger] roots.contains(u) ==> group.contains(u),
        forall|a: int, b: int|
            0 <= a < eps.len() && 0 <= eps[a].0.0 < items.len() && group.contains(
                items[eps[a].0.0 as int],
            ) && (forall|j: int| 0 <= j < eps[a].0.0 ==> #[trigger] items[j] != items[eps[a].0.0 as int]) && 0
                <= b < eps[a].1@.len() && (#[trigger] eps[a].1@[b]).0 < items.len()
                ==> group.contains(items[eps[a].1@[b].0 as int]),
{
    assert forall|u: Lr0View<N, T>| #[trigger] roots.contains(u) implies group.contains(u) by {
        assert(is_epsilon_path(items, eps, member_of(roots), seq![u]));
    }
    assert forall|a: int, b: int|
        0 <= a < eps.len() && 0 <= eps[a].0.0 < items.len() && group.contains(
            items[eps[a].0.0 as int],
        ) && (forall|j: int| 0 <= j < eps[a].0.0 ==> #[trigger] items[j] != items[eps[a].0.0 as int]) && 0
            <= b < eps[a].1@.len() && (#[trigger] eps[a].1@[b]).0 < items.len()
            implies group.contains(items[eps[a].1@[b].0 as int]) by {
        let v = items[eps[a].0.0 as int];
        let w = items[eps[a].1@[b].0 as int];
        assert(is_first_index(items, v, eps[a].0.0 as int));
        assert(epsilon_step(items, eps, v, w));
        let path = choose|path: Seq<Lr0View<N, T>>|
            #[trigger] is_epsilon_path(items, eps, member_of(roots), path) && path.last() == v;
        lemma_epsilon_path_extends(items, eps, member_of(roots), path, w);
    }
}

/// With a valid epsilon table, the group of items is the least such set:
/// any list that holds every root and, for every item of it, every
/// destination listed for the first position of that item, holds the whole
/// group.
pub proof fn lemma_item_group_least<N: ItemTrait, T: ItemTrait>(
    items: Seq<Lr0View<N, T>>,
    eps: Seq<(Lr0ItemIndex, Vec<Lr0ItemIndex>)>,
    roots: Seq<Lr0View<N, T>>,
    group: Seq<Lr0View<N, T>>,
    s: Seq<Lr0View<N, T>>,
    u: Lr0View<N, T>,
)
    requires
        epsilon_table_valid(items.len() as int, eps),
        forall|x: Lr0View<N, T>|
            #[trigger] group.contains(x) <==> in_epsilon_closure(items, eps, member_of(roots), x),
        forall|x: Lr0View<N, T>| #[trigger] roots.contains(x) ==> s.contains(x),
        forall|a: int, b: int|
            0 <= a < eps.len() && 0 <= eps[a].0.0 < items.len() && s.contains(
                items[eps[a].0.0 as int],
            ) && (forall|j: int| 0 <= j < eps[a].0.0 ==> #[trigger] items[j] != items[eps[a].0.0 as int]) && 0
                <= b < eps[a].1@.len() && (#[trigger] eps[a].1@[b]).0 < items.len()
                ==> s.contains(items[eps[a].1@[b].0 as int]),
        group.contains(u),
    ensures
        s.contains(u),
{
    assert forall|x: Lr0View<N, T>| #[trigger] member_of(roots)(x) implies s.contains(x) by {
        assert(roots.contains(x));
    }
    assert forall|x: Lr0View<N, T>, y: Lr0View<N, T>|
        s.contains(x) && #[trigger] epsilon_step(items, eps, x, y) implies s.contains(y) by {
        let (a, b) = choose|a: int, b: int|
            0 <= a < eps.len() && is_first_index(items, x, eps[a].0.0 as int) && 0 <= b
                < eps[a].1@.len() && items[(#[trigger] eps[a].1@[b]).0 as int] == y;
        assert(items[eps[a].0.0 as int] == x);
        assert(eps[a].1@[b].0 < items.len());
    }
    let path = choose|path: Seq<Lr0View<N, T>>|
        #[trigger] is_epsilon_path(items, eps, member_of(roots), path) && path.last() == u;
    lemma_closure_contained(items, eps, member_of(roots), s, path);
}

/// The first state of the deterministic automaton holds every item of the
/// automaton of items whose head is the start symbol and whose parsed part
/// is empty, whatever its expected part; without epsilon transitions it
/// holds exactly those.
pub proof fn lemma_first_state_law<N: ItemTrait, T: ItemTrait>(
    items: Seq<Lr0View<N, T>>,
    eps: Seq<(Lr0ItemIndex, Vec<Lr0ItemIndex>)>,
    start_symbol: N,
    state: Seq<Lr0View<N, T>>,
    v: Lr0View<N, T>,
)
    requires
        forall|u: Lr0View<N, T>|
            #[trigger] state.contains(u) <==> in_epsilon_closure(
                items,
                eps,
                start_items(items, start_symbol),
                u,
            ),
    ensures
        items.contains(v) && v.0 == start_symbol && v.1.len() == 0 ==> state.contains(v),
        eps.len() == 0 ==> (state.contains(v) <==> (items.contains(v) && v.0 == start_symbol
            && v.1.len() == 0)),
{
    if items.contains(v) && v.0 == start_symbol && v.1.len() == 0 {
        assert(is_epsilon_path(items, eps, start_items(items, start_symbol), seq![v]));
        assert(state.contains(v));
    }
    if eps.len() == 0 {
        lemma_closure_without_epsilon(items, eps, start_items(items, start_symbol), v);
    }
}

/// An item is kept among the group's transitions exactly when its expected
/// part is not empty and does not begin with the empty string, whatever its
/// parsed part; the kept items come in the order of the group.
pub proof fn lemma_group_transitions_law<N: ItemTrait, T: ItemTrait>(
    group: Seq<Lr0View<N, T>>,
    kept: Seq<Lr0View<N, T>>,
    v: Lr0View<N, T>,
)
    requires
        kept == group.filter(|u: Lr0View<N, T>| has_group_transition(u)),
    ensures
        kept.contains(v) <==> (group.contains(v) && v.2.len() > 0 && !(v.2[0] is Epsilon)),
        kept.len() <= group.len(),
{
    let pred = |u: Lr0View<N, T>| has_group_transition(u);
    group.lemma_filter_len(pred);
    if kept.contains(v) {
        group.lemma_filter_contains_rev(pred, v);
        let i = choose|i: int| 0 <= i < kept.len() && kept[i] == v;
        group.lemma_filter_pred(pred, i);
    }
    if group.contains(v) && v.2.len() > 0 && !(v.2[0] is Epsilon) {
        let i = choose|i: int| 0 <= i < group.len() && group[i] == v;
        group.lemma_filter_contains(pred, i);
    }
}

} // verus!
