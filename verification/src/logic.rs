//! The engine of the toolbox: substitutions, syntactic unification with
//! occurs-check, derivation trees, and the backtracking proof searcher.
use itertools::Itertools;
use vstd::prelude::*;

use crate::Judgement;
use crate::JudgementView;
use crate::Rule;
use crate::RuleView;
use crate::rename_rule;
use crate::text_of;
use crate::lemma_views_of_index;
use crate::lemma_views_of_len;
use crate::term_vars;
use crate::terms_vars;
use crate::views_of;

verus! {

broadcast use crate::lemma_views_of_index;

/// The model of a substitution: a finite map from variable names to terms.
pub type TableView = Map<Seq<char>, JudgementView>;

/// A term with every bound variable replaced by its image, in one pass.
/// Tables are kept fully resolved (see `table_wf`), so one pass reaches the
/// fixed point that repeated replacement would reach.
pub open spec fn subst_apply(t: JudgementView, m: TableView) -> JudgementView
    decreases t,
{
    match t {
        JudgementView::Variable { name } => if m.dom().contains(name) {
            m[name]
        } else {
            t
        },
        JudgementView::Operator { predicate, subjects } => JudgementView::Operator {
            predicate,
            subjects: subst_apply_all(subjects, m),
        },
    }
}

/// `subst_apply` mapped over a sequence of terms.
pub open spec fn subst_apply_all(ts: Seq<JudgementView>, m: TableView) -> Seq<JudgementView>
    decreases ts,
{
    if ts.len() == 0 {
        Seq::empty()
    } else {
        subst_apply_all(ts.drop_last(), m).push(subst_apply(ts.last(), m))
    }
}

pub broadcast proof fn lemma_subst_apply_all_index(ts: Seq<JudgementView>, m: TableView, i: int)
    ensures
        subst_apply_all(ts, m).len() == ts.len(),
        0 <= i < ts.len() ==> #[trigger] subst_apply_all(ts, m)[i] == subst_apply(ts[i], m),
    decreases ts,
{
    if ts.len() > 0 {
        lemma_subst_apply_all_index(ts.drop_last(), m, i);
        if 0 <= i < ts.len() - 1 {
            assert(ts.drop_last()[i] == ts[i]);
        }
    }
}

/// A well-formed table: finitely many bindings, and no bound variable occurs
/// in any stored term, so stored terms are fully resolved.
pub open spec fn table_wf(m: TableView) -> bool {
    &&& m.dom().finite()
    &&& table_vars(m).finite()
    &&& forall|v: Seq<char>| #[trigger] m.dom().contains(v) ==> term_vars(m[v]).disjoint(m.dom())
}

/// All names a table mentions: its bound variables and every variable of a
/// stored term.
pub open spec fn table_vars(m: TableView) -> Set<Seq<char>> {
    m.dom().union(
        Set::new(
            |w: Seq<char>|
                exists|v: Seq<char>| #[trigger] m.dom().contains(v) && term_vars(m[v]).contains(w),
        ),
    )
}

/// A substitution, also called a unification table: the most general solution
/// the unifier has found so far. Bindings are kept fully resolved, so that
/// applying the table is a single traversal.
#[derive(Debug)]
pub struct Substitution {
    entries: Vec<(String, Judgement)>,
}

/// The name the unifier's callers know the substitution by.
pub type UnificationTable = Substitution;

/// The map that a list of bindings denotes, later entries winning.
pub closed spec fn entries_map(s: Seq<(String, Judgement)>) -> TableView
    decreases s,
{
    if s.len() == 0 {
        Map::empty()
    } else {
        entries_map(s.drop_last()).insert(s.last().0@, s.last().1@)
    }
}

spec fn keys_distinct(s: Seq<(String, Judgement)>) -> bool {
    forall|i: int, j: int| 0 <= i < j < s.len() ==> (#[trigger] s[i]).0@ != (#[trigger] s[j]).0@
}

impl View for Substitution {
    type V = TableView;

    closed spec fn view(&self) -> TableView {
        entries_map(self.entries@)
    }
}

proof fn lemma_entries_map_dom(s: Seq<(String, Judgement)>, k: Seq<char>)
    ensures
        entries_map(s).dom().contains(k) <==> exists|i: int|
            0 <= i < s.len() && (#[trigger] s[i]).0@ == k,
        entries_map(s).dom().finite(),
    decreases s,
{
    if s.len() > 0 {
        lemma_entries_map_dom(s.drop_last(), k);
        if entries_map(s).dom().contains(k) {
            if k == s.last().0@ {
                assert(s[s.len() - 1].0@ == k);
            } else {
                let i = choose|i: int|
                    0 <= i < s.drop_last().len() && (#[trigger] s.drop_last()[i]).0@ == k;
                assert(s[i].0@ == k);
            }
        }
        if exists|i: int| 0 <= i < s.len() && (#[trigger] s[i]).0@ == k {
            let i = choose|i: int| 0 <= i < s.len() && (#[trigger] s[i]).0@ == k;
            if i < s.len() - 1 {
                assert(s.drop_last()[i].0@ == k);
            }
        }
    }
}

proof fn lemma_entries_map_index(s: Seq<(String, Judgement)>, i: int)
    requires
        keys_distinct(s),
        0 <= i < s.len(),
    ensures
        entries_map(s).dom().contains(s[i].0@),
        entries_map(s)[s[i].0@] == s[i].1@,
    decreases s,
{
    lemma_entries_map_dom(s, s[i].0@);
    if i < s.len() - 1 {
        assert(keys_distinct(s.drop_last())) by {
            assert forall|a: int, b: int| 0 <= a < b < s.drop_last().len() implies (
            #[trigger] s.drop_last()[a]).0@ != (#[trigger] s.drop_last()[b]).0@ by {
                assert(s[a] == s.drop_last()[a]);
                assert(s[b] == s.drop_last()[b]);
            }
        }
        lemma_entries_map_index(s.drop_last(), i);
        assert(s.drop_last()[i] == s[i]);
        assert(s[i].0@ != s.last().0@);
    }
}

/// A term with one variable replaced by a term, everywhere.
pub open spec fn term_subst(t: JudgementView, x: Seq<char>, u: JudgementView) -> JudgementView
    decreases t,
{
    match t {
        JudgementView::Variable { name } => if name == x {
            u
        } else {
            t
        },
        JudgementView::Operator { predicate, subjects } => JudgementView::Operator {
            predicate,
            subjects: terms_subst(subjects, x, u),
        },
    }
}

/// `term_subst` mapped over a sequence of terms.
pub open spec fn terms_subst(ts: Seq<JudgementView>, x: Seq<char>, u: JudgementView) -> Seq<
    JudgementView,
>
    decreases ts,
{
    if ts.len() == 0 {
        Seq::empty()
    } else {
        terms_subst(ts.drop_last(), x, u).push(term_subst(ts.last(), x, u))
    }
}

pub broadcast proof fn lemma_terms_subst_index(
    ts: Seq<JudgementView>,
    x: Seq<char>,
    u: JudgementView,
    i: int,
)
    ensures
        terms_subst(ts, x, u).len() == ts.len(),
        0 <= i < ts.len() ==> #[trigger] terms_subst(ts, x, u)[i] == term_subst(ts[i], x, u),
    decreases ts,
{
    if ts.len() > 0 {
        lemma_terms_subst_index(ts.drop_last(), x, u, i);
        if 0 <= i < ts.len() - 1 {
            assert(ts.drop_last()[i] == ts[i]);
        }
    }
}

/// A term whose variables avoid the table's domain is left unchanged.
pub proof fn lemma_apply_resolved(t: JudgementView, m: TableView)
    requires
        term_vars(t).disjoint(m.dom()),
    ensures
        subst_apply(t, m) == t,
    decreases t,
{
    match t {
        JudgementView::Variable { name } => {
            assert(term_vars(t).contains(name));
        },
        JudgementView::Operator { predicate, subjects } => {
            lemma_apply_resolved_all(subjects, m);
            assert(subst_apply(t, m) =~= t);
        },
    }
}

pub proof fn lemma_apply_resolved_all(ts: Seq<JudgementView>, m: TableView)
    requires
        terms_vars(ts).disjoint(m.dom()),
    ensures
        subst_apply_all(ts, m) == ts,
    decreases ts,
{
    broadcast use lemma_subst_apply_all_index;

    if ts.len() > 0 {
        lemma_apply_resolved_all(ts.drop_last(), m);
        assert forall|w: Seq<char>|
            term_vars(ts.last()).contains(w) implies !m.dom().contains(w) by {
            crate::lemma_terms_vars_index(ts, w);
            assert(terms_vars(ts).contains(w));
        }
        lemma_apply_resolved(ts.last(), m);
        assert(subst_apply_all(ts, m) =~= ts);
    }
}

/// What applying a well-formed table can mention: variables of the term or of
/// the table, and nothing that the table binds.
pub proof fn lemma_apply_vars(t: JudgementView, m: TableView)
    requires
        table_wf(m),
    ensures
        term_vars(subst_apply(t, m)).subset_of(term_vars(t).union(table_vars(m))),
        term_vars(subst_apply(t, m)).disjoint(m.dom()),
    decreases t,
{
    match t {
        JudgementView::Variable { name } => {
            if m.dom().contains(name) {
                assert forall|w: Seq<char>|
                    term_vars(m[name]).contains(w) implies term_vars(t).union(
                    table_vars(m),
                ).contains(w) by {
                    assert(table_vars(m).contains(w));
                }
            }
        },
        JudgementView::Operator { predicate, subjects } => {
            lemma_apply_vars_all(subjects, m);
        },
    }
}

pub proof fn lemma_apply_vars_all(ts: Seq<JudgementView>, m: TableView)
    requires
        table_wf(m),
    ensures
        terms_vars(subst_apply_all(ts, m)).subset_of(terms_vars(ts).union(table_vars(m))),
        terms_vars(subst_apply_all(ts, m)).disjoint(m.dom()),
    decreases ts,
{
    if ts.len() > 0 {
        lemma_apply_vars_all(ts.drop_last(), m);
        lemma_apply_vars(ts.last(), m);
        assert(subst_apply_all(ts, m) == subst_apply_all(ts.drop_last(), m).push(
            subst_apply(ts.last(), m),
        ));
        assert(terms_vars(subst_apply_all(ts, m)) =~= terms_vars(
            subst_apply_all(ts.drop_last(), m),
        ).union(term_vars(subst_apply(ts.last(), m)))) by {
            assert(subst_apply_all(ts, m).drop_last() =~= subst_apply_all(ts.drop_last(), m));
        }
    }
}

/// Applying a well-formed table twice is applying it once.
pub proof fn lemma_apply_idempotent(t: JudgementView, m: TableView)
    requires
        table_wf(m),
    ensures
        subst_apply(subst_apply(t, m), m) == subst_apply(t, m),
{
    lemma_apply_vars(t, m);
    lemma_apply_resolved(subst_apply(t, m), m);
}

/// What replacing one variable can mention.
pub proof fn lemma_term_subst_vars(t: JudgementView, x: Seq<char>, u: JudgementView)
    ensures
        term_vars(term_subst(t, x, u)).subset_of(term_vars(t).remove(x).union(term_vars(u))),
        !term_vars(t).contains(x) ==> term_subst(t, x, u) == t,
    decreases t,
{
    match t {
        JudgementView::Variable { name } => {},
        JudgementView::Operator { predicate, subjects } => {
            lemma_terms_subst_vars(subjects, x, u);
            if !term_vars(t).contains(x) {
                assert(term_subst(t, x, u) =~= t);
            }
        },
    }
}

pub proof fn lemma_terms_subst_vars(ts: Seq<JudgementView>, x: Seq<char>, u: JudgementView)
    ensures
        terms_vars(terms_subst(ts, x, u)).subset_of(terms_vars(ts).remove(x).union(term_vars(u))),
        !terms_vars(ts).contains(x) ==> terms_subst(ts, x, u) == ts,
    decreases ts,
{
    if ts.len() > 0 {
        lemma_terms_subst_vars(ts.drop_last(), x, u);
        lemma_term_subst_vars(ts.last(), x, u);
        assert(terms_subst(ts, x, u).drop_last() =~= terms_subst(ts.drop_last(), x, u));
        assert(terms_vars(terms_subst(ts, x, u)) =~= terms_vars(
            terms_subst(ts.drop_last(), x, u),
        ).union(term_vars(term_subst(ts.last(), x, u))));
        if !terms_vars(ts).contains(x) {
            assert(terms_subst(ts, x, u) =~= ts);
        }
    }
}

/// The table that one fresh binding makes out of `m`: the new variable maps to
/// the new term, and the new term is substituted into every stored term.
pub open spec fn is_insert(m2: TableView, m: TableView, x: Seq<char>, u: JudgementView) -> bool {
    &&& m2.dom() == m.dom().insert(x)
    &&& m2[x] == u
    &&& forall|v: Seq<char>|
        #[trigger] m.dom().contains(v) && v != x ==> m2[v] == term_subst(m[v], x, u)
}

/// Applying the extended table is applying the old one and then substituting
/// the new binding.
pub proof fn lemma_insert_compose(
    t: JudgementView,
    m: TableView,
    m2: TableView,
    x: Seq<char>,
    u: JudgementView,
)
    requires
        table_wf(m),
        !m.dom().contains(x),
        is_insert(m2, m, x, u),
    ensures
        subst_apply(t, m2) == term_subst(subst_apply(t, m), x, u),
    decreases t,
{
    match t {
        JudgementView::Variable { name } => {
            if name == x {
            } else if m.dom().contains(name) {
                assert(m2.dom().contains(name));
            } else {
                assert(!m2.dom().contains(name));
            }
        },
        JudgementView::Operator { predicate, subjects } => {
            lemma_insert_compose_all(subjects, m, m2, x, u);
            assert(subst_apply(t, m2) =~= term_subst(subst_apply(t, m), x, u));
        },
    }
}

pub proof fn lemma_insert_compose_all(
    ts: Seq<JudgementView>,
    m: TableView,
    m2: TableView,
    x: Seq<char>,
    u: JudgementView,
)
    requires
        table_wf(m),
        !m.dom().contains(x),
        is_insert(m2, m, x, u),
    ensures
        subst_apply_all(ts, m2) == terms_subst(subst_apply_all(ts, m), x, u),
    decreases ts,
{
    if ts.len() > 0 {
        lemma_insert_compose_all(ts.drop_last(), m, m2, x, u);
        lemma_insert_compose(ts.last(), m, m2, x, u);
        assert(subst_apply_all(ts, m).drop_last() =~= subst_apply_all(ts.drop_last(), m));
        assert(subst_apply_all(ts, m).last() == subst_apply(ts.last(), m));
        assert(terms_subst(subst_apply_all(ts, m), x, u) =~= terms_subst(
            subst_apply_all(ts.drop_last(), m),
            x,
            u,
        ).push(term_subst(subst_apply(ts.last(), m), x, u)));
        assert(subst_apply_all(ts, m2) =~= terms_subst(subst_apply_all(ts, m), x, u));
    }
}

/// `m2` refines `m1`: it binds at least as much, and applying `m1` first
/// changes nothing about what `m2` says.
pub open spec fn refines(m2: TableView, m1: TableView) -> bool {
    &&& m1.dom().subset_of(m2.dom())
    &&& forall|v: Seq<char>| #[trigger]
        m1.dom().contains(v) ==> subst_apply(m1[v], m2) == m2[v]
}

/// Applying a refinement absorbs applying what it refines.
pub proof fn lemma_refines_apply(t: JudgementView, m1: TableView, m2: TableView)
    requires
        refines(m2, m1),
    ensures
        subst_apply(subst_apply(t, m1), m2) == subst_apply(t, m2),
    decreases t,
{
    match t {
        JudgementView::Variable { name } => {},
        JudgementView::Operator { predicate, subjects } => {
            lemma_refines_apply_all(subjects, m1, m2);
            assert(subst_apply(subst_apply(t, m1), m2) =~= subst_apply(t, m2));
        },
    }
}

pub proof fn lemma_refines_apply_all(ts: Seq<JudgementView>, m1: TableView, m2: TableView)
    requires
        refines(m2, m1),
    ensures
        subst_apply_all(subst_apply_all(ts, m1), m2) == subst_apply_all(ts, m2),
    decreases ts,
{
    if ts.len() > 0 {
        lemma_refines_apply_all(ts.drop_last(), m1, m2);
        lemma_refines_apply(ts.last(), m1, m2);
        assert(subst_apply_all(ts, m1).drop_last() =~= subst_apply_all(ts.drop_last(), m1));
        assert(subst_apply_all(ts, m1).last() == subst_apply(ts.last(), m1));
        assert(subst_apply_all(subst_apply_all(ts, m1), m2) =~= subst_apply_all(
            subst_apply_all(ts.drop_last(), m1),
            m2,
        ).push(subst_apply(subst_apply(ts.last(), m1), m2)));
        assert(subst_apply_all(subst_apply_all(ts, m1), m2) =~= subst_apply_all(ts, m2));
    }
}

/// A well-formed table refines itself.
pub proof fn lemma_refines_refl(m: TableView)
    requires
        table_wf(m),
    ensures
        refines(m, m),
{
    assert forall|v: Seq<char>| #[trigger] m.dom().contains(v) implies subst_apply(m[v], m)
        == m[v] by {
        lemma_apply_resolved(m[v], m);
    }
}

/// Refinement is transitive.
pub proof fn lemma_refines_trans(m1: TableView, m2: TableView, m3: TableView)
    requires
        refines(m2, m1),
        refines(m3, m2),
    ensures
        refines(m3, m1),
{
    assert forall|v: Seq<char>| #[trigger] m1.dom().contains(v) implies subst_apply(m1[v], m3)
        == m3[v] by {
        lemma_refines_apply(m1[v], m2, m3);
        assert(subst_apply(subst_apply(m1[v], m2), m3) == subst_apply(m1[v], m3));
    }
}

/// `sigma` honours every binding of `m`: a bound variable and its stored term
/// mean the same thing under `sigma`.
pub open spec fn absorbs(sigma: TableView, m: TableView) -> bool {
    forall|v: Seq<char>|
        #[trigger] m.dom().contains(v) ==> subst_apply(m[v], sigma) == subst_apply(
            JudgementView::Variable { name: v },
            sigma,
        )
}

/// The unification problem `a = b` has a solution that honours `m`.
pub open spec fn unifiable(a: JudgementView, b: JudgementView, m: TableView) -> bool {
    exists|sigma: TableView|
        #[trigger] absorbs(sigma, m) && subst_apply(a, sigma) == subst_apply(b, sigma)
}

/// Under a table that `sigma` honours, applying the table first changes
/// nothing about what `sigma` says.
pub proof fn lemma_absorbs_apply(t: JudgementView, m: TableView, sigma: TableView)
    requires
        absorbs(sigma, m),
    ensures
        subst_apply(subst_apply(t, m), sigma) == subst_apply(t, sigma),
    decreases t,
{
    match t {
        JudgementView::Variable { name } => {},
        JudgementView::Operator { predicate, subjects } => {
            lemma_absorbs_apply_all(subjects, m, sigma);
            assert(subst_apply(subst_apply(t, m), sigma) =~= subst_apply(t, sigma));
        },
    }
}

pub proof fn lemma_absorbs_apply_all(ts: Seq<JudgementView>, m: TableView, sigma: TableView)
    requires
        absorbs(sigma, m),
    ensures
        subst_apply_all(subst_apply_all(ts, m), sigma) == subst_apply_all(ts, sigma),
    decreases ts,
{
    if ts.len() > 0 {
        lemma_absorbs_apply_all(ts.drop_last(), m, sigma);
        lemma_absorbs_apply(ts.last(), m, sigma);
        assert(subst_apply_all(ts, m).drop_last() =~= subst_apply_all(ts.drop_last(), m));
        assert(subst_apply_all(ts, m).last() == subst_apply(ts.last(), m));
        assert(subst_apply_all(subst_apply_all(ts, m), sigma) =~= subst_apply_all(
            subst_apply_all(ts.drop_last(), m),
            sigma,
        ).push(subst_apply(subst_apply(ts.last(), m), sigma)));
        assert(subst_apply_all(subst_apply_all(ts, m), sigma) =~= subst_apply_all(ts, sigma));
    }
}

/// A refinement honours what it refines.
pub proof fn lemma_refines_absorbs(m2: TableView, m1: TableView)
    requires
        refines(m2, m1),
    ensures
        absorbs(m2, m1),
{
}

/// Replacing a variable by a term that `sigma` equates with it changes
/// nothing under `sigma`.
proof fn lemma_subst_absorb(t: JudgementView, y: Seq<char>, u: JudgementView, sigma: TableView)
    requires
        subst_apply(u, sigma) == subst_apply(JudgementView::Variable { name: y }, sigma),
    ensures
        subst_apply(term_subst(t, y, u), sigma) == subst_apply(t, sigma),
    decreases t,
{
    match t {
        JudgementView::Variable { name } => {},
        JudgementView::Operator { predicate, subjects } => {
            lemma_subst_absorb_all(subjects, y, u, sigma);
            broadcast use lemma_terms_subst_index;

            assert(subst_apply(term_subst(t, y, u), sigma) =~= subst_apply(t, sigma));
        },
    }
}

proof fn lemma_subst_absorb_all(
    ts: Seq<JudgementView>,
    y: Seq<char>,
    u: JudgementView,
    sigma: TableView,
)
    requires
        subst_apply(u, sigma) == subst_apply(JudgementView::Variable { name: y }, sigma),
    ensures
        subst_apply_all(terms_subst(ts, y, u), sigma) == subst_apply_all(ts, sigma),
    decreases ts,
{
    if ts.len() > 0 {
        lemma_subst_absorb_all(ts.drop_last(), y, u, sigma);
        lemma_subst_absorb(ts.last(), y, u, sigma);
        assert(terms_subst(ts, y, u).drop_last() =~= terms_subst(ts.drop_last(), y, u));
        assert(terms_subst(ts, y, u).last() == term_subst(ts.last(), y, u));
        assert(subst_apply_all(terms_subst(ts, y, u), sigma) =~= subst_apply_all(
            terms_subst(ts.drop_last(), y, u),
            sigma,
        ).push(subst_apply(term_subst(ts.last(), y, u), sigma)));
        assert(subst_apply_all(terms_subst(ts, y, u), sigma) =~= subst_apply_all(ts, sigma));
    }
}

/// Applying a table never makes a term smaller.
proof fn lemma_apply_size(t: JudgementView, sigma: TableView)
    ensures
        term_size(subst_apply(t, sigma)) >= term_size(t),
    decreases t,
{
    match t {
        JudgementView::Variable { name } => {
            if sigma.dom().contains(name) {
                lemma_term_size_pos(sigma[name]);
            }
        },
        JudgementView::Operator { predicate, subjects } => {
            lemma_apply_size_all(subjects, sigma);
        },
    }
}

proof fn lemma_apply_size_all(ts: Seq<JudgementView>, sigma: TableView)
    ensures
        terms_size(subst_apply_all(ts, sigma)) >= terms_size(ts),
    decreases ts,
{
    if ts.len() > 0 {
        lemma_apply_size_all(ts.drop_last(), sigma);
        lemma_apply_size(ts.last(), sigma);
        assert(subst_apply_all(ts, sigma).drop_last() =~= subst_apply_all(ts.drop_last(), sigma));
        assert(subst_apply_all(ts, sigma).last() == subst_apply(ts.last(), sigma));
    }
}

proof fn lemma_term_size_pos(t: JudgementView)
    ensures
        term_size(t) >= 1,
{
    match t {
        JudgementView::Variable { name } => {},
        JudgementView::Operator { predicate, subjects } => {},
    }
}

/// A term containing a variable applies to something at least as large as the
/// variable's image, plus everything around the occurrence.
proof fn lemma_occurs_size(t: JudgementView, y: Seq<char>, sigma: TableView)
    requires
        term_vars(t).contains(y),
    ensures
        term_size(subst_apply(t, sigma)) >= term_size(
            subst_apply(JudgementView::Variable { name: y }, sigma),
        ) + term_size(t) - 1,
    decreases t,
{
    match t {
        JudgementView::Variable { name } => {
            assert(name == y);
        },
        JudgementView::Operator { predicate, subjects } => {
            lemma_occurs_size_all(subjects, y, sigma);
        },
    }
}

proof fn lemma_occurs_size_all(ts: Seq<JudgementView>, y: Seq<char>, sigma: TableView)
    requires
        terms_vars(ts).contains(y),
    ensures
        terms_size(subst_apply_all(ts, sigma)) >= term_size(
            subst_apply(JudgementView::Variable { name: y }, sigma),
        ) + terms_size(ts) - 1,
    decreases ts,
{
    assert(ts.len() > 0);
    assert(subst_apply_all(ts, sigma).drop_last() =~= subst_apply_all(ts.drop_last(), sigma));
    assert(subst_apply_all(ts, sigma).last() == subst_apply(ts.last(), sigma));
    if term_vars(ts.last()).contains(y) {
        lemma_occurs_size(ts.last(), y, sigma);
        lemma_apply_size_all(ts.drop_last(), sigma);
    } else {
        lemma_occurs_size_all(ts.drop_last(), y, sigma);
        lemma_apply_size(ts.last(), sigma);
    }
}

/// No table makes a variable equal to an operator that contains it: what the
/// occurs-check protects.
pub proof fn lemma_occurs_no_unifier(t: JudgementView, y: Seq<char>)
    requires
        t is Operator,
        term_vars(t).contains(y),
    ensures
        forall|sigma: TableView|
            #[trigger] subst_apply(t, sigma) != subst_apply(
                JudgementView::Variable { name: y },
                sigma,
            ),
{
    assert forall|sigma: TableView|
        #[trigger] subst_apply(t, sigma) != subst_apply(
            JudgementView::Variable { name: y },
            sigma,
        ) by {
        lemma_occurs_size(t, y, sigma);
        let subjects = t->Operator_subjects;
        assert(terms_vars(subjects).contains(y));
        assert(subjects.len() > 0);
        lemma_term_size_pos(subjects.last());
        lemma_terms_size_last_bound(subjects);
        assert(term_size(t) >= 2);
    }
}

proof fn lemma_terms_size_last_bound(ts: Seq<JudgementView>)
    requires
        ts.len() > 0,
    ensures
        terms_size(ts) >= term_size(ts.last()),
{
}

/// One fresh binding refines the table it extends.
pub proof fn lemma_insert_refines(m: TableView, m2: TableView, x: Seq<char>, u: JudgementView)
    requires
        table_wf(m),
        !m.dom().contains(x),
        is_insert(m2, m, x, u),
    ensures
        refines(m2, m),
{
    assert forall|v: Seq<char>| #[trigger] m.dom().contains(v) implies subst_apply(m[v], m2)
        == m2[v] by {
        lemma_insert_compose(m[v], m, m2, x, u);
        lemma_apply_resolved(m[v], m);
    }
}

/// The extended table is well-formed again, and mentions only what the old
/// table, the new variable and the new term mention.
pub proof fn lemma_insert_wf(m: TableView, m2: TableView, x: Seq<char>, u: JudgementView)
    requires
        table_wf(m),
        !m.dom().contains(x),
        is_insert(m2, m, x, u),
        term_vars(u).disjoint(m.dom()),
        !term_vars(u).contains(x),
    ensures
        table_wf(m2),
        table_vars(m2).subset_of(table_vars(m).insert(x).union(term_vars(u))),
{
    assert forall|v: Seq<char>| #[trigger] m2.dom().contains(v) implies term_vars(
        m2[v],
    ).disjoint(m2.dom()) by {
        if v == x {
            assert forall|w: Seq<char>| term_vars(u).contains(w) implies !m2.dom().contains(w) by {}
        } else {
            lemma_term_subst_vars(m[v], x, u);
            assert forall|w: Seq<char>| term_vars(m2[v]).contains(w) implies !m2.dom().contains(
                w,
            ) by {
                assert(term_vars(m[v]).remove(x).union(term_vars(u)).contains(w));
            }
        }
    }
    assert forall|w: Seq<char>| table_vars(m2).contains(w) implies table_vars(m).insert(x).union(
        term_vars(u),
    ).contains(w) by {
        if m2.dom().contains(w) {
            if w != x {
                assert(table_vars(m).contains(w));
            }
        } else {
            let v = choose|v: Seq<char>|
                #[trigger] m2.dom().contains(v) && term_vars(m2[v]).contains(w);
            if v == x {
                assert(term_vars(u).contains(w));
            } else {
                lemma_term_subst_vars(m[v], x, u);
                if term_vars(m[v]).contains(w) {
                    assert(table_vars(m).contains(w));
                } else {
                    assert(term_vars(u).contains(w));
                }
            }
        }
    }
    crate::lemma_term_vars_finite(u);
    vstd::set_lib::lemma_len_subset(
        table_vars(m2),
        table_vars(m).insert(x).union(term_vars(u)),
    );
}

/// One variable replaced by a term, everywhere in a term.
fn replace_var(j: &Judgement, x: &String, u: &Judgement) -> (r: Judgement)
    ensures
        r@ == term_subst(j@, x@, u@),
    decreases j,
{
    broadcast use lemma_terms_subst_index;

    match j {
        Judgement::Variable(name) => {
            if name.eq(x) {
                u.clone()
            } else {
                j.clone()
            }
        },
        Judgement::Operator { predicate, subjects } => {
            let mut subs: Vec<Judgement> = Vec::new();
            let mut i: usize = 0;
            while i < subjects.len()
                invariant
                    i <= subjects.len(),
                    subs@.len() == i,
                    *j == (Judgement::Operator { predicate: *predicate, subjects: *subjects }),
                    forall|k: int|
                        0 <= k < i ==> (#[trigger] subs@[k])@ == term_subst(
                            subjects@[k]@,
                            x@,
                            u@,
                        ),
                decreases subjects.len() - i,
            {
                proof {
                    let jj = *j;
                    assert(decreases_to!(jj => jj->Operator_subjects));
                    assert(decreases_to!(*subjects => subjects@));
                    assert(decreases_to!(subjects@ => subjects@[i as int]));
                }
                let child = replace_var(&subjects[i], x, u);
                subs.push(child);
                i = i + 1;
            }
            proof {
                lemma_views_of_len(subs@);
                lemma_views_of_len(subjects@);
                assert forall|k: int| 0 <= k < subjects@.len() implies views_of(subs@)[k]
                    == terms_subst(views_of(subjects@), x@, u@)[k] by {
                    lemma_views_of_index(subs@, k);
                    lemma_views_of_index(subjects@, k);
                    lemma_terms_subst_index(views_of(subjects@), x@, u@, k);
                }
                lemma_terms_subst_index(views_of(subjects@), x@, u@, 0);
                assert(views_of(subs@) =~= terms_subst(views_of(subjects@), x@, u@));
            }
            Judgement::Operator { predicate: predicate.clone(), subjects: subs }
        },
    }
}

impl Judgement {
    /// The term with every bound variable replaced by the term stored for it.
    /// Stored terms are fully resolved, so no variable of the result is bound.
    pub fn apply_substitution(&self, substitutions: &Substitution) -> (r: Judgement)
        ensures
            r@ == subst_apply(self@, substitutions@),
        decreases self,
    {
        broadcast use lemma_subst_apply_all_index;

        match self {
            Judgement::Variable(name) => {
                match substitutions.get(name.as_str()) {
                    Some(j) => j.clone(),
                    None => self.clone(),
                }
            },
            Judgement::Operator { predicate, subjects } => {
                let mut subs: Vec<Judgement> = Vec::new();
                let mut i: usize = 0;
                while i < subjects.len()
                    invariant
                        i <= subjects.len(),
                        subs@.len() == i,
                        *self == (Judgement::Operator {
                            predicate: *predicate,
                            subjects: *subjects,
                        }),
                        forall|k: int|
                            0 <= k < i ==> (#[trigger] subs@[k])@ == subst_apply(
                                subjects@[k]@,
                                substitutions@,
                            ),
                    decreases subjects.len() - i,
                {
                    proof {
                        let jj = *self;
                        assert(decreases_to!(jj => jj->Operator_subjects));
                        assert(decreases_to!(*subjects => subjects@));
                        assert(decreases_to!(subjects@ => subjects@[i as int]));
                    }
                    let child = subjects[i].apply_substitution(substitutions);
                    subs.push(child);
                    i = i + 1;
                }
                proof {
                    lemma_views_of_len(subs@);
                    lemma_views_of_len(subjects@);
                    assert forall|k: int| 0 <= k < subjects@.len() implies views_of(subs@)[k]
                        == subst_apply_all(views_of(subjects@), substitutions@)[k] by {
                        lemma_views_of_index(subs@, k);
                        lemma_views_of_index(subjects@, k);
                        lemma_subst_apply_all_index(views_of(subjects@), substitutions@, k);
                    }
                    lemma_subst_apply_all_index(views_of(subjects@), substitutions@, 0);
                    assert(views_of(subs@) =~= subst_apply_all(views_of(subjects@), substitutions@));
                }
                Judgement::Operator { predicate: predicate.clone(), subjects: subs }
            },
        }
    }

    /// Whether the named variable occurs anywhere in the term itself.
    fn variable_occurs(&self, variable: &String) -> (r: bool)
        ensures
            r == term_vars(self@).contains(variable@),
        decreases self,
    {
        match self {
            Judgement::Variable(name) => name.eq(variable),
            Judgement::Operator { predicate, subjects } => {
                let mut i: usize = 0;
                while i < subjects.len()
                    invariant
                        i <= subjects.len(),
                        *self == (Judgement::Operator {
                            predicate: *predicate,
                            subjects: *subjects,
                        }),
                        forall|k: int|
                            0 <= k < i ==> !term_vars(#[trigger] views_of(subjects@)[k]).contains(
                                variable@,
                            ),
                    decreases subjects.len() - i,
                {
                    proof {
                        let jj = *self;
                        assert(decreases_to!(jj => jj->Operator_subjects));
                        assert(decreases_to!(*subjects => subjects@));
                        assert(decreases_to!(subjects@ => subjects@[i as int]));
                    }
                    if subjects[i].variable_occurs(variable) {
                        proof {
                            lemma_views_of_len(subjects@);
                            lemma_views_of_index(subjects@, i as int);
                            assert(term_vars(views_of(subjects@)[i as int]).contains(variable@));
                            crate::lemma_terms_vars_index(views_of(subjects@), variable@);
                        }
                        return true;
                    }
                    proof {
                        lemma_views_of_len(subjects@);
                        lemma_views_of_index(subjects@, i as int);
                    }
                    i = i + 1;
                }
                proof {
                    lemma_views_of_len(subjects@);
                    crate::lemma_terms_vars_index(views_of(subjects@), variable@);
                }
                false
            },
        }
    }

    /// Whether the named variable occurs in the term once every bound variable
    /// is chased through the table: the occurs-check of the unifier.
    pub fn variable_occurs_with_substitution(
        &self,
        variable: String,
        substitutions: &Substitution,
    ) -> (r: bool)
        ensures
            r == term_vars(subst_apply(self@, substitutions@)).contains(variable@),
        decreases self,
    {
        broadcast use lemma_subst_apply_all_index;

        match self {
            Judgement::Variable(name) => {
                match substitutions.get(name.as_str()) {
                    Some(j) => j.variable_occurs(&variable),
                    None => name.eq(&variable),
                }
            },
            Judgement::Operator { predicate, subjects } => {
                let ghost m = substitutions@;
                let mut i: usize = 0;
                while i < subjects.len()
                    invariant
                        i <= subjects.len(),
                        m == substitutions@,
                        *self == (Judgement::Operator {
                            predicate: *predicate,
                            subjects: *subjects,
                        }),
                        forall|k: int|
                            0 <= k < i ==> !term_vars(
                                #[trigger] subst_apply_all(views_of(subjects@), m)[k],
                            ).contains(variable@),
                    decreases subjects.len() - i,
                {
                    proof {
                        let jj = *self;
                        assert(decreases_to!(jj => jj->Operator_subjects));
                        assert(decreases_to!(*subjects => subjects@));
                        assert(decreases_to!(subjects@ => subjects@[i as int]));
                        lemma_views_of_len(subjects@);
                    }
                    let hit = subjects[i].variable_occurs_with_substitution(
                        variable.clone(),
                        substitutions,
                    );
                    proof {
                        lemma_views_of_index(subjects@, i as int);
                        lemma_subst_apply_all_index(views_of(subjects@), m, i as int);
                        assert(subst_apply_all(views_of(subjects@), m)[i as int] == subst_apply(
                            subjects@[i as int]@,
                            m,
                        ));
                    }
                    if hit {
                        proof {
                            crate::lemma_terms_vars_index(
                                subst_apply_all(views_of(subjects@), m),
                                variable@,
                            );
                        }
                        return true;
                    }
                    i = i + 1;
                }
                proof {
                    lemma_views_of_len(subjects@);
                    crate::lemma_terms_vars_index(
                        subst_apply_all(views_of(subjects@), m),
                        variable@,
                    );
                }
                false
            },
        }
    }
}

/// The number of nodes of a term.
pub open spec fn term_size(t: JudgementView) -> nat
    decreases t,
{
    match t {
        JudgementView::Variable { name } => 1,
        JudgementView::Operator { predicate, subjects } => 1 + terms_size(subjects),
    }
}

/// The total number of nodes of a sequence of terms.
pub open spec fn terms_size(ts: Seq<JudgementView>) -> nat
    decreases ts,
{
    if ts.len() == 0 {
        0
    } else {
        terms_size(ts.drop_last()) + term_size(ts.last())
    }
}

proof fn lemma_terms_size_index(ts: Seq<JudgementView>, i: int)
    requires
        0 <= i < ts.len(),
    ensures
        term_size(ts[i]) <= terms_size(ts),
    decreases ts,
{
    if i < ts.len() - 1 {
        lemma_terms_size_index(ts.drop_last(), i);
        assert(ts.drop_last()[i] == ts[i]);
    }
}

/// The names still in play around one unification problem: variables of the
/// two resolved terms, and variables inside stored terms. Binding a variable
/// shrinks this set, which is what makes the unifier terminate.
pub open spec fn unify_free(a: JudgementView, b: JudgementView, m: TableView) -> Set<Seq<char>> {
    term_vars(subst_apply(a, m)).union(term_vars(subst_apply(b, m))).union(
        table_vars(m).difference(m.dom()),
    )
}

/// The joint size of the two resolved terms.
pub open spec fn unify_size(a: JudgementView, b: JudgementView, m: TableView) -> nat {
    term_size(subst_apply(a, m)) + term_size(subst_apply(b, m))
}

/// The termination argument of the unifier: against a possibly-extended table,
/// a pair of subterms measures strictly less than its parent pair, first by
/// the free names, then by resolved size.
proof fn lemma_unify_child_measure(
    pa: JudgementView,
    pb: JudgementView,
    ca: JudgementView,
    cb: JudgementView,
    m0: TableView,
    mi: TableView,
)
    requires
        table_wf(m0),
        table_wf(mi),
        m0.dom().subset_of(mi.dom()),
        mi.dom() == m0.dom() ==> mi == m0,
        table_vars(mi).subset_of(
            table_vars(m0).union(term_vars(subst_apply(pa, m0))).union(
                term_vars(subst_apply(pb, m0)),
            ),
        ),
        term_vars(ca).subset_of(term_vars(subst_apply(pa, m0))),
        term_vars(cb).subset_of(term_vars(subst_apply(pb, m0))),
        term_size(ca) + term_size(cb) < unify_size(pa, pb, m0),
    ensures
        unify_free(ca, cb, mi).len() < unify_free(pa, pb, m0).len() || (unify_free(
            ca,
            cb,
            mi,
        ).len() == unify_free(pa, pb, m0).len() && unify_size(ca, cb, mi) < unify_size(
            pa,
            pb,
            m0,
        )),
{
    let av = subst_apply(pa, m0);
    let bv = subst_apply(pb, m0);
    let f0 = unify_free(pa, pb, m0);
    let fc = unify_free(ca, cb, mi);
    lemma_apply_vars(pa, m0);
    lemma_apply_vars(pb, m0);
    lemma_apply_vars(ca, mi);
    lemma_apply_vars(cb, mi);
    crate::lemma_term_vars_finite(av);
    crate::lemma_term_vars_finite(bv);
    vstd::set_lib::lemma_len_subset(table_vars(m0).difference(m0.dom()), table_vars(m0));
    assert(f0.finite());
    assert forall|w: Seq<char>| fc.contains(w) implies f0.contains(w) && !mi.dom().contains(
        w,
    ) by {
        if term_vars(subst_apply(ca, mi)).contains(w) || term_vars(subst_apply(cb, mi)).contains(
            w,
        ) {
            assert(!mi.dom().contains(w));
            if term_vars(ca).contains(w) || term_vars(cb).contains(w) {
                assert(f0.contains(w));
            } else {
                assert(table_vars(mi).contains(w));
                if table_vars(m0).contains(w) {
                    assert(!m0.dom().contains(w));
                    assert(table_vars(m0).difference(m0.dom()).contains(w));
                }
            }
        } else {
            assert(table_vars(mi).contains(w) && !mi.dom().contains(w));
            if table_vars(m0).contains(w) {
                assert(!m0.dom().contains(w));
                assert(table_vars(m0).difference(m0.dom()).contains(w));
            }
        }
    }
    if mi.dom().subset_of(m0.dom()) {
        assert(mi.dom() =~= m0.dom());
        assert(mi == m0);
        assert(term_vars(ca).disjoint(m0.dom()));
        assert(term_vars(cb).disjoint(m0.dom()));
        lemma_apply_resolved(ca, m0);
        lemma_apply_resolved(cb, m0);
        assert(unify_size(ca, cb, mi) < unify_size(pa, pb, m0));
        vstd::set_lib::lemma_len_subset(fc, f0);
    } else {
        let x = choose|x: Seq<char>| mi.dom().contains(x) && !(#[trigger] m0.dom().contains(x));
        assert(table_vars(mi).contains(x));
        assert(f0.contains(x)) by {
            if table_vars(m0).contains(x) {
                assert(table_vars(m0).difference(m0.dom()).contains(x));
            }
        }
        assert(fc.subset_of(f0.remove(x)));
        vstd::set_lib::lemma_len_subset(fc, f0.remove(x));
        assert(f0.remove(x).len() == f0.len() - 1) by {
            vstd::set::axiom_set_remove_len(f0, x);
        }
    }
}

/// Two operators equal under a table agree subject by subject under it.
proof fn lemma_op_children_equal(a: JudgementView, b: JudgementView, sigma: TableView, i: int)
    requires
        a is Operator,
        b is Operator,
        a->Operator_subjects.len() == b->Operator_subjects.len(),
        0 <= i < a->Operator_subjects.len(),
        subst_apply(a, sigma) == subst_apply(b, sigma),
    ensures
        subst_apply(a->Operator_subjects[i], sigma) == subst_apply(b->Operator_subjects[i], sigma),
{
    broadcast use lemma_subst_apply_all_index;

    assert(subst_apply(a, sigma)->Operator_subjects == subst_apply_all(
        a->Operator_subjects,
        sigma,
    ));
    assert(subst_apply(b, sigma)->Operator_subjects == subst_apply_all(
        b->Operator_subjects,
        sigma,
    ));
    assert(subst_apply_all(a->Operator_subjects, sigma)[i] == subst_apply(
        a->Operator_subjects[i],
        sigma,
    ));
    assert(subst_apply_all(b->Operator_subjects, sigma)[i] == subst_apply(
        b->Operator_subjects[i],
        sigma,
    ));
}

/// What one successful binding gives the unifier: the extension is
/// well-formed, refines the old table, and resolves both the variable and the
/// bound term to the bound term.
proof fn lemma_bind_post(m0: TableView, mf: TableView, x: Seq<char>, u: JudgementView)
    requires
        table_wf(m0),
        !m0.dom().contains(x),
        term_vars(u).disjoint(m0.dom()),
        !term_vars(u).contains(x),
        is_insert(mf, m0, x, u),
    ensures
        table_wf(mf),
        refines(mf, m0),
        subst_apply(JudgementView::Variable { name: x }, mf) == u,
        subst_apply(u, mf) == u,
        table_vars(mf).subset_of(table_vars(m0).insert(x).union(term_vars(u))),
        mf.dom() != m0.dom(),
{
    lemma_insert_wf(m0, mf, x, u);
    lemma_insert_refines(m0, mf, x, u);
    lemma_insert_compose(u, m0, mf, x, u);
    lemma_apply_resolved(u, m0);
    lemma_term_subst_vars(u, x, u);
    assert(mf.dom().contains(x));
    assert(mf.dom() != m0.dom()) by {
        if mf.dom() == m0.dom() {
            assert(m0.dom().contains(x));
        }
    }
}

/// Any solution that honours the old table and equates the variable with the
/// bound term honours the extended table too: the binding loses no solution.
proof fn lemma_bind_generality(
    m0: TableView,
    mf: TableView,
    y: Seq<char>,
    u: JudgementView,
    sigma: TableView,
)
    requires
        is_insert(mf, m0, y, u),
        absorbs(sigma, m0),
        subst_apply(u, sigma) == subst_apply(JudgementView::Variable { name: y }, sigma),
    ensures
        absorbs(sigma, mf),
{
    assert forall|v: Seq<char>| #[trigger] mf.dom().contains(v) implies subst_apply(mf[v], sigma)
        == subst_apply(JudgementView::Variable { name: v }, sigma) by {
        if v != y {
            assert(m0.dom().contains(v));
            lemma_subst_absorb(m0[v], y, u, sigma);
        }
    }
}

/// Bind one fresh variable to a fully resolved term, after the occurs-check.
fn bind_variable(name: &String, value: &Judgement, substitutions: Substitution) -> (r: Result<
    Substitution,
    String,
>)
    requires
        !substitutions@.dom().contains(name@),
        term_vars(value@).disjoint(substitutions@.dom()),
    ensures
        term_vars(value@).contains(name@) ==> r is Err && (r->Err_0)@
            == "Recursive unification!"@,
        !term_vars(value@).contains(name@) ==> r is Ok && is_insert(
            (r->Ok_0)@,
            substitutions@,
            name@,
            value@,
        ),
{
    proof {
        use_type_invariant(&substitutions);
        lemma_apply_resolved(value@, substitutions@);
    }
    if value.variable_occurs_with_substitution(name.clone(), &substitutions) {
        Err("Recursive unification!".to_owned())
    } else {
        let mut s = substitutions;
        s.insert_binding(name.clone(), value.clone());
        Ok(s)
    }
}

impl Judgement {
    /// One step of unification under an accumulated table. Both sides are
    /// resolved against the table first; variables are bound to resolved
    /// terms, operators are matched by predicate and arity and unified
    /// subject by subject, left to right.
    fn unify_with_substitution(&self, other: &Judgement, substitutions: Substitution) -> (r:
        Result<Substitution, String>)
        ensures
            r is Ok ==> refines((r->Ok_0)@, substitutions@),
            r is Ok ==> subst_apply(self@, (r->Ok_0)@) == subst_apply(other@, (r->Ok_0)@),
            r is Ok ==> table_vars((r->Ok_0)@).subset_of(
                table_vars(substitutions@).union(
                    term_vars(subst_apply(self@, substitutions@)),
                ).union(term_vars(subst_apply(other@, substitutions@))),
            ),
            r is Ok ==> ((r->Ok_0)@.dom() == substitutions@.dom() ==> (r->Ok_0)@
                == substitutions@),
            r is Ok ==> unifiable(self@, other@, substitutions@),
            r is Err ==> !unifiable(self@, other@, substitutions@),
            r is Ok ==> forall|sigma: TableView|
                #[trigger] absorbs(sigma, substitutions@) && subst_apply(self@, sigma)
                    == subst_apply(other@, sigma) ==> absorbs(sigma, (r->Ok_0)@),
            ({
                let ra = subst_apply(self@, substitutions@);
                let rb = subst_apply(other@, substitutions@);
                &&& (ra is Variable && rb is Variable && ra == rb ==> r is Ok && (r->Ok_0)@
                    == substitutions@)
                &&& (rb is Variable && ra != rb && !term_vars(ra).contains(rb->Variable_name)
                    ==> r is Ok && is_insert((r->Ok_0)@, substitutions@, rb->Variable_name, ra))
                &&& (ra is Variable && rb is Operator && !term_vars(rb).contains(
                    ra->Variable_name,
                ) ==> r is Ok && is_insert((r->Ok_0)@, substitutions@, ra->Variable_name, rb))
                &&& (ra is Variable && rb is Operator && term_vars(rb).contains(
                    ra->Variable_name,
                ) ==> r is Err && (r->Err_0)@ == "Recursive unification!"@)
                &&& (rb is Variable && ra is Operator && term_vars(ra).contains(
                    rb->Variable_name,
                ) ==> r is Err && (r->Err_0)@ == "Recursive unification!"@)
                &&& (ra is Operator && rb is Operator && ra->Operator_predicate
                    != rb->Operator_predicate ==> r is Err && (r->Err_0)@
                    == "Different predicates: "@ + ra->Operator_predicate + " != "@
                    + rb->Operator_predicate)
                &&& (ra is Operator && rb is Operator && ra->Operator_predicate
                    == rb->Operator_predicate && ra->Operator_subjects.len()
                    != rb->Operator_subjects.len() ==> r is Err && (r->Err_0)@
                    == "Predicates with different arieties: "@ + crate::naming::dec_str(
                    ra->Operator_subjects.len(),
                ) + " and "@ + crate::naming::dec_str(rb->Operator_subjects.len()))
            }),
        decreases
                unify_free(self@, other@, substitutions@).len(),
                unify_size(self@, other@, substitutions@),
    {
        proof {
            use_type_invariant(&substitutions);
            lemma_apply_vars(self@, substitutions@);
            lemma_apply_vars(other@, substitutions@);
        }
        let ghost m0 = substitutions@;
        let a = self.apply_substitution(&substitutions);
        let b = other.apply_substitution(&substitutions);
        match (&a, &b) {
            (Judgement::Variable(x), Judgement::Variable(y)) => {
                if x.eq(y) {
                    proof {
                        lemma_refines_refl(m0);
                        lemma_refines_apply(self@, m0, m0);
                        lemma_refines_apply(other@, m0, m0);
                        lemma_refines_absorbs(m0, m0);
                        assert(absorbs(m0, m0) && subst_apply(self@, m0) == subst_apply(
                            other@,
                            m0,
                        ));
                        assert(unifiable(self@, other@, m0));
                    }
                    Ok(substitutions)
                } else {
                    let r = bind_variable(y, &a, substitutions);
                    proof {
                        assert(!term_vars(a@).contains(y@));
                        assert(r is Ok);
                        let mf = (r->Ok_0)@;
                        lemma_bind_post(m0, mf, y@, a@);
                        lemma_refines_apply(self@, m0, mf);
                        lemma_refines_apply(other@, m0, mf);
                        lemma_refines_absorbs(mf, m0);
                        assert(absorbs(mf, m0) && subst_apply(self@, mf) == subst_apply(
                            other@,
                            mf,
                        ));
                        assert(unifiable(self@, other@, m0));
                        assert forall|sigma: TableView|
                            #[trigger] absorbs(sigma, m0) && subst_apply(self@, sigma)
                                == subst_apply(other@, sigma) implies absorbs(sigma, mf) by {
                            lemma_absorbs_apply(self@, m0, sigma);
                            lemma_absorbs_apply(other@, m0, sigma);
                            assert(subst_apply(a@, sigma) == subst_apply(
                                JudgementView::Variable { name: y@ },
                                sigma,
                            ));
                            lemma_bind_generality(m0, mf, y@, a@, sigma);
                        }
                    }
                    r
                }
            },
            (j, Judgement::Variable(y)) => {
                let r = bind_variable(y, &a, substitutions);
                proof {
                    if r is Ok {
                        let mf = (r->Ok_0)@;
                        lemma_bind_post(m0, mf, y@, a@);
                        lemma_refines_apply(self@, m0, mf);
                        lemma_refines_apply(other@, m0, mf);
                        lemma_refines_absorbs(mf, m0);
                        assert(absorbs(mf, m0) && subst_apply(self@, mf) == subst_apply(
                            other@,
                            mf,
                        ));
                        assert(unifiable(self@, other@, m0));
                        assert forall|sigma: TableView|
                            #[trigger] absorbs(sigma, m0) && subst_apply(self@, sigma)
                                == subst_apply(other@, sigma) implies absorbs(sigma, mf) by {
                            lemma_absorbs_apply(self@, m0, sigma);
                            lemma_absorbs_apply(other@, m0, sigma);
                            assert(subst_apply(a@, sigma) == subst_apply(
                                JudgementView::Variable { name: y@ },
                                sigma,
                            ));
                            lemma_bind_generality(m0, mf, y@, a@, sigma);
                        }
                    } else {
                        assert(term_vars(a@).contains(y@));
                        lemma_occurs_no_unifier(a@, y@);
                        assert(!unifiable(self@, other@, m0)) by {
                            if unifiable(self@, other@, m0) {
                                let sigma = choose|sigma: TableView|
                                    #[trigger] absorbs(sigma, m0) && subst_apply(self@, sigma)
                                        == subst_apply(other@, sigma);
                                lemma_absorbs_apply(self@, m0, sigma);
                                lemma_absorbs_apply(other@, m0, sigma);
                                assert(subst_apply(a@, sigma) == subst_apply(
                                    JudgementView::Variable { name: y@ },
                                    sigma,
                                ));
                            }
                        }
                    }
                }
                r
            },
            (Judgement::Variable(x), j) => {
                let r = bind_variable(x, &b, substitutions);
                proof {
                    if r is Ok {
                        let mf = (r->Ok_0)@;
                        lemma_bind_post(m0, mf, x@, b@);
                        lemma_refines_apply(self@, m0, mf);
                        lemma_refines_apply(other@, m0, mf);
                        lemma_refines_absorbs(mf, m0);
                        assert(absorbs(mf, m0) && subst_apply(self@, mf) == subst_apply(
                            other@,
                            mf,
                        ));
                        assert(unifiable(self@, other@, m0));
                        assert forall|sigma: TableView|
                            #[trigger] absorbs(sigma, m0) && subst_apply(self@, sigma)
                                == subst_apply(other@, sigma) implies absorbs(sigma, mf) by {
                            lemma_absorbs_apply(self@, m0, sigma);
                            lemma_absorbs_apply(other@, m0, sigma);
                            assert(subst_apply(b@, sigma) == subst_apply(
                                JudgementView::Variable { name: x@ },
                                sigma,
                            ));
                            lemma_bind_generality(m0, mf, x@, b@, sigma);
                        }
                    } else {
                        assert(term_vars(b@).contains(x@));
                        lemma_occurs_no_unifier(b@, x@);
                        assert(!unifiable(self@, other@, m0)) by {
                            if unifiable(self@, other@, m0) {
                                let sigma = choose|sigma: TableView|
                                    #[trigger] absorbs(sigma, m0) && subst_apply(self@, sigma)
                                        == subst_apply(other@, sigma);
                                lemma_absorbs_apply(self@, m0, sigma);
                                lemma_absorbs_apply(other@, m0, sigma);
                                assert(subst_apply(b@, sigma) == subst_apply(
                                    JudgementView::Variable { name: x@ },
                                    sigma,
                                ));
                            }
                        }
                    }
                }
                r
            },
            (
                Judgement::Operator { predicate: p1, subjects: s1 },
                Judgement::Operator { predicate: p2, subjects: s2 },
            ) => {
                proof {
                    lemma_views_of_len(s1@);
                    lemma_views_of_len(s2@);
                }
                if !p1.eq(p2) {
                    let mut msg = "Different predicates: ".to_owned();
                    msg.append(p1.as_str());
                    msg.append(" != ");
                    msg.append(p2.as_str());
                    proof {
                        assert(msg@ =~= "Different predicates: "@ + p1@ + " != "@ + p2@);
                        assert(!unifiable(self@, other@, m0)) by {
                            if unifiable(self@, other@, m0) {
                                let sigma = choose|sigma: TableView|
                                    #[trigger] absorbs(sigma, m0) && subst_apply(self@, sigma)
                                        == subst_apply(other@, sigma);
                                lemma_absorbs_apply(self@, m0, sigma);
                                lemma_absorbs_apply(other@, m0, sigma);
                                assert(subst_apply(a@, sigma) == subst_apply(b@, sigma));
                            }
                        }
                    }
                    return Err(msg);
                }
                if s1.len() != s2.len() {
                    let mut msg = "Predicates with different arieties: ".to_owned();
                    msg.append(crate::naming::dec_of_usize(s1.len()).as_str());
                    msg.append(" and ");
                    msg.append(crate::naming::dec_of_usize(s2.len()).as_str());
                    proof {
                        broadcast use lemma_subst_apply_all_index;

                        assert(msg@ =~= "Predicates with different arieties: "@
                            + crate::naming::dec_str(s1@.len() as nat) + " and "@
                            + crate::naming::dec_str(s2@.len() as nat));
                        assert(!unifiable(self@, other@, m0)) by {
                            if unifiable(self@, other@, m0) {
                                let sigma = choose|sigma: TableView|
                                    #[trigger] absorbs(sigma, m0) && subst_apply(self@, sigma)
                                        == subst_apply(other@, sigma);
                                lemma_absorbs_apply(self@, m0, sigma);
                                lemma_absorbs_apply(other@, m0, sigma);
                                assert(subst_apply(a@, sigma) == subst_apply(b@, sigma));
                                lemma_subst_apply_all_index(views_of(s1@), sigma, 0);
                                lemma_subst_apply_all_index(views_of(s2@), sigma, 0);
                                assert(subst_apply(a@, sigma)->Operator_subjects.len()
                                    != subst_apply(b@, sigma)->Operator_subjects.len());
                            }
                        }
                    }
                    return Err(msg);
                }
                let ghost av = a@;
                let ghost bv = b@;
                let mut current = substitutions;
                let mut i: usize = 0;
                proof {
                    lemma_refines_refl(m0);
                }
                while i < s1.len()
                    invariant
                        i <= s1@.len(),
                        s1@.len() == s2@.len(),
                        p1@ == p2@,
                        m0 == substitutions@,
                        table_wf(m0),
                        table_wf(current@),
                        refines(current@, m0),
                        current@.dom() == m0.dom() ==> current@ == m0,
                        table_vars(current@).subset_of(
                            table_vars(m0).union(term_vars(av)).union(term_vars(bv)),
                        ),
                        term_vars(av).disjoint(m0.dom()),
                        term_vars(bv).disjoint(m0.dom()),
                        av == subst_apply(self@, m0),
                        bv == subst_apply(other@, m0),
                        av == (JudgementView::Operator {
                            predicate: p1@,
                            subjects: views_of(s1@),
                        }),
                        bv == (JudgementView::Operator {
                            predicate: p2@,
                            subjects: views_of(s2@),
                        }),
                        forall|k: int|
                            0 <= k < i ==> subst_apply(#[trigger] views_of(s1@)[k], current@)
                                == subst_apply(views_of(s2@)[k], current@),
                        forall|sigma: TableView|
                            #[trigger] absorbs(sigma, m0) && subst_apply(self@, sigma)
                                == subst_apply(other@, sigma) ==> absorbs(sigma, current@),
                    decreases s1@.len() - i,
                {
                    let ghost c1 = views_of(s1@)[i as int];
                    let ghost c2 = views_of(s2@)[i as int];
                    proof {
                        use_type_invariant(&current);
                        lemma_views_of_len(s1@);
                        lemma_views_of_len(s2@);
                        lemma_views_of_index(s1@, i as int);
                        lemma_views_of_index(s2@, i as int);
                        assert forall|w: Seq<char>| term_vars(c1).contains(w) implies term_vars(
                            av,
                        ).contains(w) by {
                            crate::lemma_terms_vars_index(views_of(s1@), w);
                        }
                        assert forall|w: Seq<char>| term_vars(c2).contains(w) implies term_vars(
                            bv,
                        ).contains(w) by {
                            crate::lemma_terms_vars_index(views_of(s2@), w);
                        }
                        lemma_terms_size_index(views_of(s1@), i as int);
                        lemma_terms_size_index(views_of(s2@), i as int);
                        lemma_unify_child_measure(self@, other@, c1, c2, m0, current@);
                    }
                    let ghost prev = current@;
                    let res = s1[i].unify_with_substitution(&s2[i], current);
                    match res {
                        Ok(next) => {
                            current = next;
                            proof {
                                use_type_invariant(&current);
                                let cur = current@;
                                lemma_refines_trans(m0, prev, cur);
                                assert forall|k: int| 0 <= k < i + 1 implies subst_apply(
                                    #[trigger] views_of(s1@)[k],
                                    cur,
                                ) == subst_apply(views_of(s2@)[k], cur) by {
                                    if k < i {
                                        lemma_refines_apply(views_of(s1@)[k], prev, cur);
                                        lemma_refines_apply(views_of(s2@)[k], prev, cur);
                                    }
                                }
                                lemma_apply_vars(c1, prev);
                                lemma_apply_vars(c2, prev);
                                assert forall|w: Seq<char>| table_vars(cur).contains(w) implies
                                    table_vars(m0).union(term_vars(av)).union(
                                    term_vars(bv),
                                ).contains(w) by {
                                    if !table_vars(prev).contains(w) {
                                        if term_vars(subst_apply(c1, prev)).contains(w) {
                                            assert(term_vars(c1).union(table_vars(prev)).contains(
                                                w,
                                            ));
                                        } else if term_vars(subst_apply(c2, prev)).contains(w) {
                                            assert(term_vars(c2).union(table_vars(prev)).contains(
                                                w,
                                            ));
                                        }
                                    }
                                }
                                if cur.dom() == m0.dom() {
                                    assert(prev.dom().subset_of(cur.dom()));
                                    assert(m0.dom().subset_of(prev.dom()));
                                    assert(prev.dom() =~= m0.dom());
                                    assert(prev == m0);
                                    assert(cur == prev);
                                }
                                assert forall|sigma: TableView|
                                    #[trigger] absorbs(sigma, m0) && subst_apply(self@, sigma)
                                        == subst_apply(other@, sigma) implies absorbs(
                                    sigma,
                                    cur,
                                ) by {
                                    assert(absorbs(sigma, prev));
                                    lemma_absorbs_apply(self@, m0, sigma);
                                    lemma_absorbs_apply(other@, m0, sigma);
                                    assert(subst_apply(av, sigma) == subst_apply(bv, sigma));
                                    lemma_op_children_equal(av, bv, sigma, i as int);
                                    assert(subst_apply(s1@[i as int]@, sigma) == subst_apply(
                                        s2@[i as int]@,
                                        sigma,
                                    ));
                                }
                            }
                        },
                        Err(e) => {
                            proof {
                                assert(!unifiable(self@, other@, m0)) by {
                                    if unifiable(self@, other@, m0) {
                                        let sigma = choose|sigma: TableView|
                                            #[trigger] absorbs(sigma, m0) && subst_apply(
                                                self@,
                                                sigma,
                                            ) == subst_apply(other@, sigma);
                                        assert(absorbs(sigma, prev));
                                        lemma_absorbs_apply(self@, m0, sigma);
                                        lemma_absorbs_apply(other@, m0, sigma);
                                        assert(subst_apply(av, sigma) == subst_apply(bv, sigma));
                                        lemma_op_children_equal(av, bv, sigma, i as int);
                                        assert(absorbs(sigma, prev) && subst_apply(
                                            s1@[i as int]@,
                                            sigma,
                                        ) == subst_apply(s2@[i as int]@, sigma));
                                        assert(unifiable(s1@[i as int]@, s2@[i as int]@, prev));
                                    }
                                }
                            }
                            return Err(e);
                        },
                    }
                    i = i + 1;
                }
                proof {
                    use_type_invariant(&current);
                    let cur = current@;
                    lemma_views_of_len(s1@);
                    lemma_views_of_len(s2@);
                    lemma_refines_apply(self@, m0, cur);
                    lemma_refines_apply(other@, m0, cur);
                    let v1 = views_of(s1@);
                    let v2 = views_of(s2@);
                    assert forall|k: int| 0 <= k < v1.len() implies subst_apply_all(v1, cur)[k]
                        == subst_apply_all(v2, cur)[k] by {
                        lemma_subst_apply_all_index(v1, cur, k);
                        lemma_subst_apply_all_index(v2, cur, k);
                    }
                    lemma_subst_apply_all_index(v1, cur, 0);
                    lemma_subst_apply_all_index(v2, cur, 0);
                    assert(subst_apply_all(v1, cur) =~= subst_apply_all(v2, cur));
                    assert(subst_apply(av, cur) =~= subst_apply(bv, cur));
                    assert(subst_apply(self@, cur) == subst_apply(other@, cur));
                    lemma_refines_absorbs(cur, m0);
                    assert(absorbs(cur, m0) && subst_apply(self@, cur) == subst_apply(
                        other@,
                        cur,
                    ));
                    assert(unifiable(self@, other@, m0));
                }
                Ok(current)
            },
        }
    }
}

/// The empty table changes nothing.
pub proof fn lemma_apply_empty(t: JudgementView)
    ensures
        subst_apply(t, Map::empty()) == t,
{
    assert(term_vars(t).disjoint(Map::<Seq<char>, JudgementView>::empty().dom()));
    lemma_apply_resolved(t, Map::empty());
}

impl Judgement {
    /// Unify two terms from scratch: it succeeds exactly when some table
    /// makes the two terms equal, and on success the substitution returned is
    /// well-formed, makes the two terms equal once applied to both, and is
    /// most general — every table that makes them equal honours it. A
    /// variable that does not occur in the other side is bound to it, from
    /// either side; binding a variable to an operator containing it is
    /// refused (the occurs-check); operators must agree on predicate and
    /// arity; each failure carries its own message.
    pub fn unify(&self, other: &Judgement) -> (r: Result<Substitution, String>)
        ensures
            r is Ok ==> table_wf((r->Ok_0)@),
            r is Ok ==> subst_apply(self@, (r->Ok_0)@) == subst_apply(other@, (r->Ok_0)@),
            r is Ok <==> unifiable(self@, other@, Map::empty()),
            r is Ok ==> table_vars((r->Ok_0)@).subset_of(
                term_vars(self@).union(term_vars(other@)),
            ),
            r is Ok ==> forall|sigma: TableView|
                #[trigger] subst_apply(self@, sigma) == subst_apply(other@, sigma) ==> absorbs(
                    sigma,
                    (r->Ok_0)@,
                ),
            self@ is Variable && other@ == self@ ==> r is Ok && (r->Ok_0)@ == Map::<
                Seq<char>,
                JudgementView,
            >::empty(),
            other@ is Variable && self@ != other@ && !term_vars(self@).contains(
                other@->Variable_name,
            ) ==> r is Ok && (r->Ok_0)@ == Map::<Seq<char>, JudgementView>::empty().insert(
                other@->Variable_name,
                self@,
            ),
            self@ is Variable && other@ is Operator && !term_vars(other@).contains(
                self@->Variable_name,
            ) ==> r is Ok && (r->Ok_0)@ == Map::<Seq<char>, JudgementView>::empty().insert(
                self@->Variable_name,
                other@,
            ),
            self@ is Variable && other@ is Operator && term_vars(other@).contains(
                self@->Variable_name,
            ) ==> r is Err && (r->Err_0)@ == "Recursive unification!"@,
            other@ is Variable && self@ is Operator && term_vars(self@).contains(
                other@->Variable_name,
            ) ==> r is Err && (r->Err_0)@ == "Recursive unification!"@,
            self@ is Operator && other@ is Operator && self@->Operator_predicate
                != other@->Operator_predicate ==> r is Err && (r->Err_0)@
                == "Different predicates: "@ + self@->Operator_predicate + " != "@
                + other@->Operator_predicate,
            self@ is Operator && other@ is Operator && self@->Operator_predicate
                == other@->Operator_predicate && self@->Operator_subjects.len()
                != other@->Operator_subjects.len() ==> r is Err && (r->Err_0)@
                == "Predicates with different arieties: "@ + crate::naming::dec_str(
                self@->Operator_subjects.len(),
            ) + " and "@ + crate::naming::dec_str(other@->Operator_subjects.len()),
    {
        let substitutions = Substitution::empty();
        proof {
            lemma_apply_empty(self@);
            lemma_apply_empty(other@);
            assert(table_vars(substitutions@) =~= Set::<Seq<char>>::empty()) by {
                if exists|w: Seq<char>| table_vars(substitutions@).contains(w) {
                    let w = choose|w: Seq<char>| table_vars(substitutions@).contains(w);
                    if !substitutions@.dom().contains(w) {
                        let v = choose|v: Seq<char>|
                            #[trigger] substitutions@.dom().contains(v) && term_vars(
                                substitutions@[v],
                            ).contains(w);
                    }
                }
            }
        }
        let r = self.unify_with_substitution(other, substitutions);
        match &r {
            Ok(s) => {
                proof {
                    use_type_invariant(s);
                    let e = Map::<Seq<char>, JudgementView>::empty();
                    if other@ is Variable && self@ != other@ && !term_vars(self@).contains(
                        other@->Variable_name,
                    ) {
                        assert(s@ =~= e.insert(other@->Variable_name, self@));
                    }
                    if self@ is Variable && other@ is Operator && !term_vars(other@).contains(
                        self@->Variable_name,
                    ) {
                        assert(s@ =~= e.insert(self@->Variable_name, other@));
                    }
                    assert forall|sigma: TableView|
                        #[trigger] subst_apply(self@, sigma) == subst_apply(
                            other@,
                            sigma,
                        ) implies absorbs(sigma, s@) by {
                        assert(absorbs(sigma, e));
                    }
                }
            },
            Err(_) => {},
        }
        r
    }
}

/// The invariant of every substitution value: distinct keys and a well-formed
/// (fully resolved) table.
#[verifier::type_invariant]
spec fn substitution_inv(s: Substitution) -> bool {
    &&& keys_distinct(s.entries@)
    &&& table_wf(s@)
}

impl Substitution {
    /// The empty substitution.
    pub(crate) fn empty() -> (r: Self)
        ensures
            r@ == Map::<Seq<char>, JudgementView>::empty(),
    {
        let entries: Vec<(String, Judgement)> = Vec::new();
        proof {
            let m = entries_map(entries@);
            assert(m =~= Map::<Seq<char>, JudgementView>::empty());
            assert forall|w: Seq<char>| !table_vars(m).contains(w) by {
                if table_vars(m).contains(w) {
                    if !m.dom().contains(w) {
                        let v = choose|v: Seq<char>|
                            #[trigger] m.dom().contains(v) && term_vars(m[v]).contains(w);
                    }
                }
            }
            assert(table_vars(m) =~= Set::<Seq<char>>::empty());
        }
        Substitution { entries }
    }

    /// Bind a fresh variable, keeping every stored term fully resolved: the
    /// new term is substituted into the stored terms, then recorded.
    pub(crate) fn insert_binding(&mut self, name: String, value: Judgement)
        requires
            !old(self)@.dom().contains(name@),
            term_vars(value@).disjoint(old(self)@.dom()),
            !term_vars(value@).contains(name@),
        ensures
            is_insert(final(self)@, old(self)@, name@, value@),
    {
        proof {
            use_type_invariant(&*self);
        }
        let ghost m = self@;
        let ghost olde = self.entries@;
        let mut new_entries: Vec<(String, Judgement)> = Vec::new();
        let mut i: usize = 0;
        while i < self.entries.len()
            invariant
                i <= self.entries@.len(),
                self.entries@ == olde,
                new_entries@.len() == i,
                forall|k: int|
                    0 <= k < i ==> (#[trigger] new_entries@[k]).0 == olde[k].0
                        && new_entries@[k].1@ == term_subst(olde[k].1@, name@, value@),
            decreases self.entries@.len() - i,
        {
            let key = self.entries[i].0.clone();
            let val = replace_var(&self.entries[i].1, &name, &value);
            new_entries.push((key, val));
            i = i + 1;
        }
        proof {
            let mapped = new_entries@;
            assert(keys_distinct(olde) && table_wf(m));
            assert(keys_distinct(mapped));
            lemma_entries_map_dom(olde, name@);
            assert forall|w: Seq<char>|
                entries_map(mapped).dom().contains(w) == m.dom().contains(w) by {
                lemma_entries_map_dom(mapped, w);
                lemma_entries_map_dom(olde, w);
                if entries_map(mapped).dom().contains(w) {
                    let k = choose|k: int| 0 <= k < mapped.len() && (#[trigger] mapped[k]).0@ == w;
                    assert((olde[k]).0@ == w);
                }
                if m.dom().contains(w) {
                    let k = choose|k: int| 0 <= k < olde.len() && (#[trigger] olde[k]).0@ == w;
                    assert((mapped[k]).0@ == w);
                }
            }
            assert(entries_map(mapped).dom() =~= m.dom());
            assert forall|v: Seq<char>| #[trigger] m.dom().contains(v) implies entries_map(
                mapped,
            )[v] == term_subst(m[v], name@, value@) by {
                lemma_entries_map_dom(olde, v);
                let k = choose|k: int| 0 <= k < olde.len() && (#[trigger] olde[k]).0@ == v;
                lemma_entries_map_index(olde, k);
                lemma_entries_map_index(mapped, k);
            }
            let s2full = mapped.push((name, value));
            assert(s2full.drop_last() =~= mapped);
            assert(entries_map(s2full) == entries_map(mapped).insert(name@, value@));
            assert(is_insert(entries_map(s2full), m, name@, value@)) by {
                assert(entries_map(s2full).dom() =~= m.dom().insert(name@));
            }
            assert(keys_distinct(s2full)) by {
                assert forall|a: int, b: int| 0 <= a < b < s2full.len() implies (
                #[trigger] s2full[a]).0@ != (#[trigger] s2full[b]).0@ by {
                    if b == s2full.len() - 1 {
                        assert(s2full[a].0@ == olde[a].0@);
                        if s2full[a].0@ == name@ {
                            assert(m.dom().contains(name@));
                        }
                    }
                }
            }
            lemma_insert_wf(m, entries_map(s2full), name@, value@);
        }
        new_entries.push((name, value));
        self.entries = new_entries;
    }

    /// Look a variable name up. `None` when the name is unbound.
    pub fn get(&self, name: &str) -> (r: Option<&Judgement>)
        ensures
            match r {
                Some(j) => self@.dom().contains(name@) && j@ == self@[name@],
                None => !self@.dom().contains(name@),
            },
    {
        proof {
            use_type_invariant(self);
        }
        let key: String = name.to_owned();
        let mut i: usize = 0;
        while i < self.entries.len()
            invariant
                i <= self.entries@.len(),
                key@ == name@,
                keys_distinct(self.entries@),
                self@ == entries_map(self.entries@),
                forall|k: int| 0 <= k < i ==> (#[trigger] self.entries@[k]).0@ != name@,
            decreases self.entries@.len() - i,
        {
            if self.entries[i].0.eq(&key) {
                proof {
                    lemma_entries_map_index(self.entries@, i as int);
                }
                return Some(&self.entries[i].1);
            }
            i = i + 1;
        }
        proof {
            lemma_entries_map_dom(self.entries@, name@);
        }
        None
    }

}

impl Clone for Substitution {
    fn clone(&self) -> (r: Self)
        ensures
            r@ == self@,
    {
        proof {
            use_type_invariant(self);
        }
        let mut entries: Vec<(String, Judgement)> = Vec::new();
        let mut i: usize = 0;
        while i < self.entries.len()
            invariant
                i <= self.entries@.len(),
                entries@.len() == i,
                forall|k: int|
                    0 <= k < i ==> (#[trigger] entries@[k]).0 == self.entries@[k].0
                        && entries@[k].1@ == self.entries@[k].1@,
            decreases self.entries@.len() - i,
        {
            entries.push((self.entries[i].0.clone(), self.entries[i].1.clone()));
            i = i + 1;
        }
        proof {
            lemma_entries_map_congruent(entries@, self.entries@);
            assert(keys_distinct(entries@)) by {
                assert forall|a: int, b: int| 0 <= a < b < entries@.len() implies (
                #[trigger] entries@[a]).0@ != (#[trigger] entries@[b]).0@ by {
                    assert(self.entries@[a].0@ != self.entries@[b].0@);
                }
            }
        }
        Substitution { entries }
    }
}

proof fn lemma_entries_map_congruent(s1: Seq<(String, Judgement)>, s2: Seq<(String, Judgement)>)
    requires
        s1.len() == s2.len(),
        forall|i: int|
            0 <= i < s1.len() ==> (#[trigger] s1[i]).0@ == s2[i].0@ && s1[i].1@ == s2[i].1@,
    ensures
        entries_map(s1) == entries_map(s2),
    decreases s1,
{
    if s1.len() > 0 {
        assert forall|i: int| 0 <= i < s1.drop_last().len() implies (
        #[trigger] s1.drop_last()[i]).0@ == s2.drop_last()[i].0@ && s1.drop_last()[i].1@
            == s2.drop_last()[i].1@ by {
            assert(s1[i].0@ == s2[i].0@ && s1[i].1@ == s2[i].1@);
        }
        lemma_entries_map_congruent(s1.drop_last(), s2.drop_last());
        assert(s1[s1.len() - 1].0@ == s2[s1.len() - 1].0@ && s1[s1.len() - 1].1@ == s2[s1.len()
            - 1].1@);
    }
}

impl Substitution {
    /// Push every name this table mentions: each bound variable, and every
    /// variable of each stored term, and nothing else. The prover forbids
    /// these when renaming.
    pub(crate) fn collect_variables(&self, into: &mut Vec<String>)
        ensures
            crate::names_of(final(into)@) == crate::names_of(old(into)@).union(table_vars(self@)),
    {
        proof {
            use_type_invariant(self);
        }
        let ghost olde = self.entries@;
        let ghost m = self@;
        let mut i: usize = 0;
        while i < self.entries.len()
            invariant
                i <= self.entries@.len(),
                self@ == m,
                self.entries@ == olde,
                keys_distinct(olde),
                m == entries_map(olde),
                crate::names_of(old(into)@).subset_of(crate::names_of(into@)),
                crate::names_of(into@).subset_of(
                    crate::names_of(old(into)@).union(table_vars(m)),
                ),
                forall|k: int|
                    0 <= k < i ==> crate::names_of(into@).contains((#[trigger] olde[k]).0@),
                forall|k: int|
                    0 <= k < i ==> term_vars((#[trigger] olde[k]).1@).subset_of(
                        crate::names_of(into@),
                    ),
            decreases self.entries@.len() - i,
        {
            let ghost before = into@;
            into.push(self.entries[i].0.clone());
            proof {
                crate::lemma_map_push_to_set(before, olde[i as int].0);
                assert(into@ == before.push(olde[i as int].0));
                lemma_entries_map_index(olde, i as int);
                assert(table_vars(m).contains(olde[i as int].0@));
            }
            let vs = self.entries[i].1.get_variables();
            let mut k: usize = 0;
            while k < vs.len()
                invariant
                    k <= vs@.len(),
                    self.entries@ == olde,
                    keys_distinct(olde),
                    m == entries_map(olde),
                    0 <= i < olde.len(),
                    crate::names_of(vs@) == term_vars(olde[i as int].1@),
                    crate::names_of(old(into)@).subset_of(crate::names_of(into@)),
                    crate::names_of(into@).subset_of(
                        crate::names_of(old(into)@).union(table_vars(m)),
                    ),
                    crate::names_of(into@).contains(olde[i as int].0@),
                    forall|j: int|
                        0 <= j < i ==> crate::names_of(into@).contains((#[trigger] olde[j]).0@),
                    forall|j: int|
                        0 <= j < i ==> term_vars((#[trigger] olde[j]).1@).subset_of(
                            crate::names_of(into@),
                        ),
                    forall|j: int|
                        0 <= j < k ==> crate::names_of(into@).contains((#[trigger] vs@[j])@),
                decreases vs@.len() - k,
            {
                let ghost mid = into@;
                into.push(vs[k].clone());
                proof {
                    crate::lemma_map_push_to_set(mid, vs@[k as int]);
                    assert(into@ == mid.push(vs@[k as int]));
                    lemma_entries_map_index(olde, i as int);
                    let mapped = vs@.map_values(|s: String| s@);
                    assert(mapped[k as int] == vs@[k as int]@);
                    assert(crate::names_of(vs@).contains(vs@[k as int]@));
                    assert(term_vars(m[olde[i as int].0@]).contains(vs@[k as int]@));
                    assert(table_vars(m).contains(vs@[k as int]@));
                }
                k = k + 1;
            }
            proof {
                assert forall|w: Seq<char>|
                    term_vars(olde[i as int].1@).contains(w) implies crate::names_of(
                    into@,
                ).contains(w) by {
                    assert(crate::names_of(vs@).contains(w));
                    let mapped = vs@.map_values(|s: String| s@);
                    let j = choose|j: int| 0 <= j < mapped.len() && mapped[j] == w;
                    assert(vs@[j]@ == w);
                    assert(crate::names_of(into@).contains(vs@[j]@));
                }
            }
            i = i + 1;
        }
        proof {
            assert forall|w: Seq<char>| table_vars(m).contains(w) implies crate::names_of(
                into@,
            ).contains(w) by {
                if m.dom().contains(w) {
                    lemma_entries_map_dom(olde, w);
                    let k = choose|k: int| 0 <= k < olde.len() && (#[trigger] olde[k]).0@ == w;
                    assert(crate::names_of(into@).contains(olde[k].0@));
                } else {
                    let v = choose|v: Seq<char>|
                        #[trigger] m.dom().contains(v) && term_vars(m[v]).contains(w);
                    lemma_entries_map_dom(olde, v);
                    let k = choose|k: int| 0 <= k < olde.len() && (#[trigger] olde[k]).0@ == v;
                    lemma_entries_map_index(olde, k);
                    assert(term_vars(olde[k].1@).contains(w));
                }
            }
            assert(crate::names_of(into@) =~= crate::names_of(old(into)@).union(table_vars(m)));
        }
    }
}

/// A derivation: a proof tree. Each node names the rule applied, carries the
/// judgement concluded, and holds one sub-derivation per premise, in order.
#[derive(Debug)]
pub struct Derivation {
    pub(crate) premises: Vec<Derivation>,
    pub(crate) conclusion: Judgement,
    pub(crate) rule_label: String,
}

/// The mathematical shape of a `Derivation`.
#[verifier::ext_equal]
pub ghost struct DerivationView {
    pub premises: Seq<DerivationView>,
    pub conclusion: JudgementView,
    pub rule_label: Seq<char>,
}

/// The views of a sequence of derivations, in order.
pub open spec fn deriv_views_of(s: Seq<Derivation>) -> Seq<DerivationView>
    decreases s,
{
    if s.len() == 0 {
        Seq::empty()
    } else {
        deriv_views_of(s.drop_last()).push(s.last().view())
    }
}

impl View for Derivation {
    type V = DerivationView;

    closed spec fn view(&self) -> DerivationView
        decreases self,
    {
        DerivationView {
            premises: deriv_views_of(self.premises@),
            conclusion: self.conclusion@,
            rule_label: self.rule_label@,
        }
    }
}

pub broadcast proof fn lemma_deriv_views_of_index(s: Seq<Derivation>, i: int)
    ensures
        deriv_views_of(s).len() == s.len(),
        0 <= i < s.len() ==> #[trigger] deriv_views_of(s)[i] == s[i]@,
    decreases s,
{
    if s.len() > 0 {
        assert(deriv_views_of(s) == deriv_views_of(s.drop_last()).push(s.last()@));
        lemma_deriv_views_of_index(s.drop_last(), i);
        if 0 <= i < s.len() - 1 {
            assert(s.drop_last()[i] == s[i]);
        }
    }
}

/// A derivation with the substitution applied to every conclusion.
pub open spec fn deriv_apply(d: DerivationView, m: TableView) -> DerivationView
    decreases d,
{
    DerivationView {
        premises: derivs_apply(d.premises, m),
        conclusion: subst_apply(d.conclusion, m),
        rule_label: d.rule_label,
    }
}

/// `deriv_apply` mapped over a sequence of derivations.
pub open spec fn derivs_apply(ds: Seq<DerivationView>, m: TableView) -> Seq<DerivationView>
    decreases ds,
{
    if ds.len() == 0 {
        Seq::empty()
    } else {
        derivs_apply(ds.drop_last(), m).push(deriv_apply(ds.last(), m))
    }
}

pub broadcast proof fn lemma_derivs_apply_index(ds: Seq<DerivationView>, m: TableView, i: int)
    ensures
        derivs_apply(ds, m).len() == ds.len(),
        0 <= i < ds.len() ==> #[trigger] derivs_apply(ds, m)[i] == deriv_apply(ds[i], m),
    decreases ds,
{
    if ds.len() > 0 {
        lemma_derivs_apply_index(ds.drop_last(), m, i);
        if 0 <= i < ds.len() - 1 {
            assert(ds.drop_last()[i] == ds[i]);
        }
    }
}

impl Clone for Derivation {
    fn clone(&self) -> (r: Self)
        ensures
            r@ == self@,
        decreases self,
    {
        let mut premises: Vec<Derivation> = Vec::new();
        let mut i: usize = 0;
        while i < self.premises.len()
            invariant
                i <= self.premises@.len(),
                premises@.len() == i,
                forall|k: int| 0 <= k < i ==> (#[trigger] premises@[k])@ == self.premises@[k]@,
            decreases self.premises@.len() - i,
        {
            proof {
                let d = *self;
                assert(decreases_to!(d => d.premises));
                assert(decreases_to!(self.premises => self.premises@));
                assert(decreases_to!(self.premises@ => self.premises@[i as int]));
            }
            premises.push(self.premises[i].clone());
            i = i + 1;
        }
        proof {
            assert forall|k: int| 0 <= k < self.premises@.len() implies deriv_views_of(
                premises@,
            )[k] == deriv_views_of(self.premises@)[k] by {
                lemma_deriv_views_of_index(premises@, k);
                lemma_deriv_views_of_index(self.premises@, k);
            }
            lemma_deriv_views_of_index(premises@, 0);
            lemma_deriv_views_of_index(self.premises@, 0);
            assert(deriv_views_of(premises@) =~= deriv_views_of(self.premises@));
        }
        Derivation {
            premises,
            conclusion: self.conclusion.clone(),
            rule_label: self.rule_label.clone(),
        }
    }
}

impl Derivation {
    /// The derivation with the substitution applied to every conclusion in the
    /// tree: how the prover collapses a finished search into its answer.
    pub fn apply_substitution(&self, substitutions: &Substitution) -> (r: Self)
        ensures
            r@ == deriv_apply(self@, substitutions@),
        decreases self,
    {
        broadcast use {lemma_deriv_views_of_index, lemma_derivs_apply_index};

        let mut premises: Vec<Derivation> = Vec::new();
        let mut i: usize = 0;
        while i < self.premises.len()
            invariant
                i <= self.premises@.len(),
                premises@.len() == i,
                forall|k: int|
                    0 <= k < i ==> (#[trigger] premises@[k])@ == deriv_apply(
                        self.premises@[k]@,
                        substitutions@,
                    ),
            decreases self.premises@.len() - i,
        {
            proof {
                let d = *self;
                assert(decreases_to!(d => d.premises));
                assert(decreases_to!(self.premises => self.premises@));
                assert(decreases_to!(self.premises@ => self.premises@[i as int]));
            }
            let child = self.premises[i].apply_substitution(substitutions);
            premises.push(child);
            i = i + 1;
        }
        proof {
            assert forall|k: int| 0 <= k < self.premises@.len() implies deriv_views_of(
                premises@,
            )[k] == derivs_apply(deriv_views_of(self.premises@), substitutions@)[k] by {
                lemma_deriv_views_of_index(premises@, k);
                lemma_deriv_views_of_index(self.premises@, k);
                lemma_derivs_apply_index(deriv_views_of(self.premises@), substitutions@, k);
            }
            lemma_deriv_views_of_index(premises@, 0);
            lemma_deriv_views_of_index(self.premises@, 0);
            lemma_derivs_apply_index(deriv_views_of(self.premises@), substitutions@, 0);
            assert(deriv_views_of(premises@) =~= derivs_apply(
                deriv_views_of(self.premises@),
                substitutions@,
            ));
        }
        Derivation {
            premises,
            conclusion: self.conclusion.apply_substitution(substitutions),
            rule_label: self.rule_label.clone(),
        }
    }
}

/// Every ordering of a sequence, in the order the prover tries them: for each
/// position in turn, the element at that position first, followed by every
/// ordering of the rest.
pub open spec fn all_perms(s: Seq<JudgementView>) -> Seq<Seq<JudgementView>>
    decreases s.len(), s.len() + 1,
{
    if s.len() == 0 {
        seq![Seq::<JudgementView>::empty()]
    } else {
        perms_choosing(s, 0)
    }
}

/// The orderings whose first element is drawn from position `i` or later.
pub open spec fn perms_choosing(s: Seq<JudgementView>, i: int) -> Seq<Seq<JudgementView>>
    decreases s.len(), s.len() - i,
{
    if 0 <= i < s.len() {
        prepend_each(s[i], all_perms(s.remove(i))) + perms_choosing(s, i + 1)
    } else {
        Seq::empty()
    }
}

/// One element put in front of each of a list of orderings.
pub open spec fn prepend_each(x: JudgementView, ps: Seq<Seq<JudgementView>>) -> Seq<
    Seq<JudgementView>,
> {
    ps.map_values(|p: Seq<JudgementView>| seq![x] + p)
}

/// A sequence of distinct positions of `0 .. n`, one for each.
pub open spec fn is_index_perm(ord: Seq<int>, n: int) -> bool {
    &&& ord.len() == n
    &&& forall|j: int| 0 <= j < ord.len() ==> 0 <= #[trigger] ord[j] < n
    &&& forall|j: int, k: int| 0 <= j < k < ord.len() ==> ord[j] != ord[k]
}

/// `q` reads `s` at the positions `ord` lists: it is a rearrangement of `s`.
pub open spec fn reads_by(q: Seq<JudgementView>, s: Seq<JudgementView>, ord: Seq<int>) -> bool {
    &&& is_index_perm(ord, s.len() as int)
    &&& q.len() == s.len()
    &&& forall|j: int| 0 <= j < q.len() ==> #[trigger] q[j] == s[ord[j]]
}

/// Every entry of `all_perms(s)` is a rearrangement of `s`.
pub proof fn lemma_all_perms_shape(s: Seq<JudgementView>, k: int)
    requires
        0 <= k < all_perms(s).len(),
    ensures
        exists|ord: Seq<int>| reads_by(all_perms(s)[k], s, ord),
    decreases s.len(), s.len() + 1,
{
    if s.len() == 0 {
        let ord = Seq::<int>::empty();
        assert(all_perms(s)[0] =~= Seq::<JudgementView>::empty());
        assert(reads_by(all_perms(s)[k], s, ord));
    } else {
        lemma_perms_choosing_shape(s, 0, k);
    }
}

proof fn lemma_perms_choosing_shape(s: Seq<JudgementView>, i: int, k: int)
    requires
        0 <= i < s.len(),
        0 <= k < perms_choosing(s, i).len(),
    ensures
        exists|ord: Seq<int>| reads_by(perms_choosing(s, i)[k], s, ord),
    decreases s.len(), s.len() - i,
{
    let rest = s.remove(i);
    let part1 = prepend_each(s[i], all_perms(rest));
    if k < part1.len() {
        let q = perms_choosing(s, i)[k];
        assert(q == seq![s[i]] + all_perms(rest)[k]);
        lemma_all_perms_shape(rest, k);
        let ord0 = choose|ord: Seq<int>| reads_by(all_perms(rest)[k], rest, ord);
        let shifted = ord0.map_values(|x: int| if x < i { x } else { x + 1 });
        let ord = seq![i] + shifted;
        assert forall|x: int| 0 <= x < rest.len() implies rest[x] == (if x < i {
            s[x]
        } else {
            s[x + 1]
        }) by {
            assert(rest =~= s.subrange(0, i) + s.subrange(i + 1, s.len() as int));
        }
        assert(reads_by(q, s, ord)) by {
            assert(ord.len() == s.len());
            assert forall|j: int| 0 <= j < ord.len() implies 0 <= #[trigger] ord[j]
                < s.len() by {
                if j > 0 {
                    assert(ord[j] == shifted[j - 1]);
                    assert(0 <= ord0[j - 1] < rest.len());
                }
            }
            assert forall|j: int, l: int| 0 <= j < l < ord.len() implies ord[j] != ord[l] by {
                if j == 0 {
                    assert(ord[l] == shifted[l - 1]);
                } else {
                    assert(ord[j] == shifted[j - 1]);
                    assert(ord[l] == shifted[l - 1]);
                    assert(ord0[j - 1] != ord0[l - 1]);
                }
            }
            assert forall|j: int| 0 <= j < q.len() implies #[trigger] q[j] == s[ord[j]] by {
                if j == 0 {
                    assert(q[0] == s[i]);
                } else {
                    assert(q[j] == all_perms(rest)[k][j - 1]);
                    assert(all_perms(rest)[k][j - 1] == rest[ord0[j - 1]]);
                    assert(ord[j] == shifted[j - 1]);
                }
            }
        }
    } else {
        assert(perms_choosing(s, i)[k] == perms_choosing(s, i + 1)[k - part1.len()]);
        if i + 1 < s.len() {
            lemma_perms_choosing_shape(s, i + 1, k - part1.len());
        } else {
            assert(perms_choosing(s, i + 1).len() == 0);
        }
    }
}

/// A renaming that the prover's fresh-naming policy could have produced.
pub open spec fn is_fresh_renaming(rr: RuleView, r: RuleView) -> bool {
    exists|st: Set<Seq<char>>|
        rr == rename_rule::<crate::naming::FreshRenamer>(r, st).0
}

/// One search node justified against the axioms under a table: a fresh
/// renaming of some axiom gives the node its label, its conclusion agrees
/// with the renamed conclusion under the table, and the children conclude the
/// renamed premises, in some order.
pub open spec fn search_node_wf_by(
    d: DerivationView,
    axioms: Seq<RuleView>,
    m: TableView,
    i: int,
    rr: RuleView,
    ord: Seq<int>,
) -> bool {
    &&& 0 <= i < axioms.len()
    &&& is_fresh_renaming(rr, axioms[i])
    &&& d.rule_label == axioms[i].name
    &&& subst_apply(rr.conclusion, m) == subst_apply(d.conclusion, m)
    &&& is_index_perm(ord, rr.premises.len() as int)
    &&& d.premises.len() == rr.premises.len()
    &&& forall|j: int|
        0 <= j < ord.len() ==> (#[trigger] d.premises[j]).conclusion == rr.premises[ord[j]]
}

pub open spec fn search_node_wf(d: DerivationView, axioms: Seq<RuleView>, m: TableView) -> bool {
    exists|i: int, rr: RuleView, ord: Seq<int>| search_node_wf_by(d, axioms, m, i, rr, ord)
}

/// A whole search tree justified under a table.
pub open spec fn search_wf(d: DerivationView, axioms: Seq<RuleView>, m: TableView) -> bool
    decreases d,
{
    search_node_wf(d, axioms, m) && searches_wf(d.premises, axioms, m)
}

pub open spec fn searches_wf(ds: Seq<DerivationView>, axioms: Seq<RuleView>, m: TableView) -> bool
    decreases ds,
{
    if ds.len() == 0 {
        true
    } else {
        searches_wf(ds.drop_last(), axioms, m) && search_wf(ds.last(), axioms, m)
    }
}

pub proof fn lemma_searches_wf_index(ds: Seq<DerivationView>, axioms: Seq<RuleView>, m: TableView)
    ensures
        searches_wf(ds, axioms, m) <==> (forall|i: int|
            0 <= i < ds.len() ==> search_wf(#[trigger] ds[i], axioms, m)),
    decreases ds,
{
    if ds.len() > 0 {
        lemma_searches_wf_index(ds.drop_last(), axioms, m);
        if searches_wf(ds, axioms, m) {
            assert forall|i: int| 0 <= i < ds.len() implies search_wf(
                #[trigger] ds[i],
                axioms,
                m,
            ) by {
                if i < ds.len() - 1 {
                    assert(ds.drop_last()[i] == ds[i]);
                }
            }
        }
        if forall|i: int| 0 <= i < ds.len() ==> search_wf(#[trigger] ds[i], axioms, m) {
            assert forall|i: int| 0 <= i < ds.drop_last().len() implies search_wf(
                #[trigger] ds.drop_last()[i],
                axioms,
                m,
            ) by {
                assert(ds.drop_last()[i] == ds[i]);
            }
        }
    }
}

/// Justification survives refining the table.
pub proof fn lemma_search_wf_refines(
    d: DerivationView,
    axioms: Seq<RuleView>,
    m1: TableView,
    m2: TableView,
)
    requires
        search_wf(d, axioms, m1),
        refines(m2, m1),
    ensures
        search_wf(d, axioms, m2),
    decreases d,
{
    let (i, rr, ord) = choose|i: int, rr: RuleView, ord: Seq<int>|
        search_node_wf_by(d, axioms, m1, i, rr, ord);
    lemma_refines_apply(rr.conclusion, m1, m2);
    lemma_refines_apply(d.conclusion, m1, m2);
    assert(search_node_wf_by(d, axioms, m2, i, rr, ord));
    lemma_searches_wf_refines(d.premises, axioms, m1, m2);
}

proof fn lemma_searches_wf_refines(
    ds: Seq<DerivationView>,
    axioms: Seq<RuleView>,
    m1: TableView,
    m2: TableView,
)
    requires
        searches_wf(ds, axioms, m1),
        refines(m2, m1),
    ensures
        searches_wf(ds, axioms, m2),
    decreases ds,
{
    if ds.len() > 0 {
        lemma_searches_wf_refines(ds.drop_last(), axioms, m1, m2);
        lemma_search_wf_refines(ds.last(), axioms, m1, m2);
    }
}

/// One node of a finished derivation justified against the axioms: as in a
/// search node, except that the children's conclusions carry the table's
/// bindings, as the collapse at the end of `verify` leaves them.
pub open spec fn deriv_node_wf_by(
    d: DerivationView,
    axioms: Seq<RuleView>,
    i: int,
    rr: RuleView,
    m: TableView,
    ord: Seq<int>,
) -> bool {
    &&& 0 <= i < axioms.len()
    &&& is_fresh_renaming(rr, axioms[i])
    &&& d.rule_label == axioms[i].name
    &&& subst_apply(rr.conclusion, m) == subst_apply(d.conclusion, m)
    &&& is_index_perm(ord, rr.premises.len() as int)
    &&& d.premises.len() == rr.premises.len()
    &&& forall|j: int|
        0 <= j < ord.len() ==> (#[trigger] d.premises[j]).conclusion == subst_apply(
            rr.premises[ord[j]],
            m,
        )
}

pub open spec fn deriv_node_wf(d: DerivationView, axioms: Seq<RuleView>) -> bool {
    exists|i: int, rr: RuleView, m: TableView, ord: Seq<int>|
        deriv_node_wf_by(d, axioms, i, rr, m, ord)
}

/// Every node of the derivation is justified against the axioms.
pub open spec fn deriv_wf(d: DerivationView, axioms: Seq<RuleView>) -> bool
    decreases d,
{
    deriv_node_wf(d, axioms) && derivs_wf(d.premises, axioms)
}

pub open spec fn derivs_wf(ds: Seq<DerivationView>, axioms: Seq<RuleView>) -> bool
    decreases ds,
{
    if ds.len() == 0 {
        true
    } else {
        derivs_wf(ds.drop_last(), axioms) && deriv_wf(ds.last(), axioms)
    }
}

/// Collapsing a justified search tree through its final well-formed table
/// leaves a well-formed derivation.
pub proof fn lemma_collapse_wf(d: DerivationView, axioms: Seq<RuleView>, m: TableView)
    requires
        search_wf(d, axioms, m),
        table_wf(m),
    ensures
        deriv_wf(deriv_apply(d, m), axioms),
    decreases d,
{
    broadcast use lemma_derivs_apply_index;

    let (i, rr, ord) = choose|i: int, rr: RuleView, ord: Seq<int>|
        search_node_wf_by(d, axioms, m, i, rr, ord);
    let c = deriv_apply(d, m);
    lemma_apply_idempotent(d.conclusion, m);
    lemma_derivs_apply_index(d.premises, m, 0);
    assert forall|j: int| 0 <= j < ord.len() implies (#[trigger] c.premises[j]).conclusion
        == subst_apply(rr.premises[ord[j]], m) by {
        lemma_derivs_apply_index(d.premises, m, j);
    }
    assert(deriv_node_wf_by(c, axioms, i, rr, m, ord));
    lemma_collapse_wf_all(d.premises, axioms, m);
    assert(derivs_wf(derivs_apply(d.premises, m), axioms));
}

proof fn lemma_collapse_wf_all(ds: Seq<DerivationView>, axioms: Seq<RuleView>, m: TableView)
    requires
        searches_wf(ds, axioms, m),
        table_wf(m),
    ensures
        derivs_wf(derivs_apply(ds, m), axioms),
    decreases ds,
{
    if ds.len() > 0 {
        lemma_collapse_wf_all(ds.drop_last(), axioms, m);
        lemma_collapse_wf(ds.last(), axioms, m);
        assert(derivs_apply(ds, m).drop_last() =~= derivs_apply(ds.drop_last(), m));
        assert(derivs_apply(ds, m).last() == deriv_apply(ds.last(), m));
    }
}

/// Relies on itertools' `permutations`, asked for permutations of the whole
/// length: every ordering of the elements, chosen lexicographically by
/// position — the element at each position in turn first, then every ordering
/// of the rest — and exactly one empty ordering for an empty input.
#[verifier::external_body]
fn permutations_all(items: &Vec<Judgement>) -> (r: Vec<Vec<Judgement>>)
    ensures
        r@.map_values(|p: Vec<Judgement>| views_of(p@)) == all_perms(views_of(items@)),
{
    items.iter().cloned().permutations(items.len()).collect()
}

/// The views of a sequence of rules, in order.
pub open spec fn rule_views_of(s: Seq<Rule>) -> Seq<RuleView>
    decreases s,
{
    if s.len() == 0 {
        Seq::empty()
    } else {
        rule_views_of(s.drop_last()).push(s.last().view())
    }
}

pub broadcast proof fn lemma_rule_views_of_index(s: Seq<Rule>, i: int)
    ensures
        rule_views_of(s).len() == s.len(),
        0 <= i < s.len() ==> #[trigger] rule_views_of(s)[i] == s[i]@,
    decreases s,
{
    if s.len() > 0 {
        assert(rule_views_of(s) == rule_views_of(s.drop_last()).push(s.last()@));
        lemma_rule_views_of_index(s.drop_last(), i);
        if 0 <= i < s.len() - 1 {
            assert(s.drop_last()[i] == s[i]);
        }
    }
}

/// A formal system: an ordered list of rules, tried in order, and a bound on
/// the height of the derivations the search may build.
pub struct FormalSystem {
    axioms: Vec<Rule>,
    max_derivation_height: u16,
}

/// The mathematical shape of a `FormalSystem`.
#[verifier::ext_equal]
pub ghost struct FormalSystemView {
    pub axioms: Seq<RuleView>,
    pub max_derivation_height: u16,
}

impl View for FormalSystem {
    type V = FormalSystemView;

    closed spec fn view(&self) -> FormalSystemView {
        FormalSystemView {
            axioms: rule_views_of(self.axioms@),
            max_derivation_height: self.max_derivation_height,
        }
    }
}

/// The form under which a failed goal is remembered: resolved through the
/// table, then its variables renamed canonically in first-met order.
pub open spec fn normal_form(goal: JudgementView, m: TableView) -> JudgementView {
    crate::rename_term::<crate::naming::CanonRenamer>(
        subst_apply(goal, m),
        Seq::empty(),
    ).0
}

/// Whether the bin holds a judgement of this shape.
pub open spec fn bin_has(bin: Seq<Judgement>, t: JudgementView) -> bool {
    exists|i: int| 0 <= i < bin.len() && (#[trigger] bin[i])@ == t
}

/// `b` extends `a`: everything in `a` stands unchanged at the front. The bin
/// only ever grows this way.
pub open spec fn bin_extends(b: Seq<Judgement>, a: Seq<Judgement>) -> bool {
    a.len() <= b.len() && b.subrange(0, a.len() as int) == a
}

proof fn lemma_bin_extends_refl(a: Seq<Judgement>)
    ensures
        bin_extends(a, a),
{
    assert(a.subrange(0, a.len() as int) =~= a);
}

proof fn lemma_bin_extends_trans(c: Seq<Judgement>, b: Seq<Judgement>, a: Seq<Judgement>)
    requires
        bin_extends(b, a),
        bin_extends(c, b),
    ensures
        bin_extends(c, a),
        forall|t: JudgementView| #[trigger] bin_has(a, t) ==> bin_has(c, t),
{
    assert forall|i: int| 0 <= i < a.len() implies c.subrange(0, a.len() as int)[i] == a[i] by {
        assert(b.subrange(0, a.len() as int)[i] == a[i]);
        assert(c.subrange(0, b.len() as int)[i] == b[i]);
    }
    assert(c.subrange(0, a.len() as int) =~= a);
    assert forall|t: JudgementView| #[trigger] bin_has(a, t) implies bin_has(c, t) by {
        let i = choose|i: int| 0 <= i < a.len() && (#[trigger] a[i])@ == t;
        assert(c.subrange(0, a.len() as int)[i] == a[i]);
        assert(c[i]@ == t);
    }
}

/// The height of a derivation: nodes on the longest root-to-leaf path.
pub open spec fn deriv_height(d: DerivationView) -> nat
    decreases d,
{
    1 + derivs_height(d.premises)
}

pub open spec fn derivs_height(ds: Seq<DerivationView>) -> nat
    decreases ds,
{
    if ds.len() == 0 {
        0
    } else if deriv_height(ds.last()) >= derivs_height(ds.drop_last()) {
        deriv_height(ds.last())
    } else {
        derivs_height(ds.drop_last())
    }
}

/// A bound on every member bounds the row.
proof fn lemma_derivs_height_bound(ds: Seq<DerivationView>, n: nat)
    requires
        forall|i: int| 0 <= i < ds.len() ==> deriv_height(#[trigger] ds[i]) <= n,
    ensures
        derivs_height(ds) <= n,
    decreases ds,
{
    if ds.len() > 0 {
        assert forall|i: int| 0 <= i < ds.drop_last().len() implies deriv_height(
            #[trigger] ds.drop_last()[i],
        ) <= n by {
            assert(ds.drop_last()[i] == ds[i]);
        }
        lemma_derivs_height_bound(ds.drop_last(), n);
        assert(deriv_height(ds[ds.len() - 1]) <= n);
    }
}

/// Collapsing a derivation through a table keeps its height.
pub proof fn lemma_deriv_apply_height(d: DerivationView, m: TableView)
    ensures
        deriv_height(deriv_apply(d, m)) == deriv_height(d),
    decreases d,
{
    lemma_derivs_apply_height(d.premises, m);
}

proof fn lemma_derivs_apply_height(ds: Seq<DerivationView>, m: TableView)
    ensures
        derivs_height(derivs_apply(ds, m)) == derivs_height(ds),
    decreases ds,
{
    if ds.len() > 0 {
        lemma_derivs_apply_height(ds.drop_last(), m);
        lemma_deriv_apply_height(ds.last(), m);
        assert(derivs_apply(ds, m).drop_last() =~= derivs_apply(ds.drop_last(), m));
        assert(derivs_apply(ds, m).last() == deriv_apply(ds.last(), m));
    }
}

/// The fresh renaming that a goal and a table force on a rule: its variables
/// are stepped out of the goal's variables and every name the table mentions.
pub open spec fn fresh_renamed(r: RuleView, goal: JudgementView, m0: TableView) -> RuleView {
    rename_rule::<crate::naming::FreshRenamer>(r, term_vars(goal).union(table_vars(m0))).0
}

/// The candidate list is complete and ordered: `ks` names which axiom each
/// entry renames, strictly increasing, and an axiom is listed exactly when
/// its freshly renamed conclusion unifies with the goal under the table.
pub open spec fn paths_complete(
    res: Seq<(Substitution, Rule)>,
    ks: Seq<int>,
    axioms: Seq<RuleView>,
    m0: TableView,
    goal: JudgementView,
) -> bool {
    &&& ks.len() == res.len()
    &&& forall|j: int|
        0 <= j < ks.len() ==> 0 <= #[trigger] ks[j] < axioms.len() && res[j].1@ == fresh_renamed(
            axioms[ks[j]],
            goal,
            m0,
        )
    &&& forall|j1: int, j2: int| 0 <= j1 < j2 < ks.len() ==> ks[j1] < ks[j2]
    &&& forall|k: int|
        0 <= k < axioms.len() ==> ((exists|j: int| 0 <= j < ks.len() && #[trigger] ks[j] == k)
            <==> unifiable(goal, fresh_renamed(#[trigger] axioms[k], goal, m0).conclusion, m0))
}

/// What each candidate derivation path promises: its table is well-formed,
/// extends the caller's, and makes the goal equal to the conclusion of its
/// rule, which freshly renames one of the system's axioms.
pub open spec fn path_ok(
    p: (Substitution, Rule),
    axioms: Seq<RuleView>,
    m0: TableView,
    goal: JudgementView,
) -> bool {
    &&& table_wf(p.0@)
    &&& refines(p.0@, m0)
    &&& exists|i: int|
        0 <= i < axioms.len() && is_fresh_renaming(p.1@, #[trigger] axioms[i]) && p.1@.name
            == axioms[i].name
    &&& subst_apply(goal, p.0@) == subst_apply(p.1@.conclusion, p.0@)
    &&& term_vars(p.1@.conclusion).disjoint(term_vars(goal).union(table_vars(m0)))
    &&& terms_vars(p.1@.premises).disjoint(term_vars(goal).union(table_vars(m0)))
}

impl FormalSystem {
    /// Build a system from its axioms and the search height bound.
    pub fn new(axioms: Vec<Rule>, max_derivation_height: u16) -> (r: Self)
        ensures
            r@ == (FormalSystemView {
                axioms: rule_views_of(axioms@),
                max_derivation_height: max_derivation_height,
            }),
    {
        Self { axioms, max_derivation_height }
    }

    /// Every axiom whose freshly renamed conclusion unifies with the goal
    /// under the current table, paired with the extended table, in the order
    /// the axioms are declared.
    fn get_possible_derivation_paths(
        &self,
        substitutions: &Substitution,
        judgement: &Judgement,
    ) -> (r: Vec<(Substitution, Rule)>)
        ensures
            forall|k: int|
                0 <= k < r@.len() ==> path_ok(
                    #[trigger] r@[k],
                    self@.axioms,
                    substitutions@,
                    judgement@,
                ),
            exists|ks: Seq<int>|
                #[trigger] paths_complete(r@, ks, self@.axioms, substitutions@, judgement@),
    {
        proof {
            use_type_invariant(substitutions);
        }
        let ghost m0 = substitutions@;
        let ghost goal = judgement@;
        let mut result: Vec<(Substitution, Rule)> = Vec::new();
        let mut variables = judgement.get_variables();
        substitutions.collect_variables(&mut variables);
        let ghost forbidden = crate::names_of(variables@);
        proof {
            vstd::seq_lib::seq_to_set_is_finite(variables@.map_values(|s: String| s@));
            assert(forbidden =~= term_vars(goal).union(table_vars(m0)));
        }
        let mut renamer = crate::naming::FreshRenamer::new(variables);
        let ghost mut ks: Seq<int> = Seq::empty();
        proof {
            lemma_rule_views_of_index(self.axioms@, 0);
        }
        let mut k: usize = 0;
        while k < self.axioms.len()
            invariant
                k <= self.axioms@.len(),
                m0 == substitutions@,
                goal == judgement@,
                renamer@ == forbidden,
                forbidden.finite(),
                forbidden == term_vars(goal).union(table_vars(m0)),
                self@.axioms.len() == self.axioms@.len(),
                forall|j: int|
                    0 <= j < result@.len() ==> path_ok(
                        #[trigger] result@[j],
                        self@.axioms,
                        m0,
                        goal,
                    ),
                ks.len() == result@.len(),
                forall|j: int|
                    0 <= j < ks.len() ==> 0 <= #[trigger] ks[j] < k && result@[j].1@
                        == fresh_renamed(self@.axioms[ks[j]], goal, m0),
                forall|j1: int, j2: int| 0 <= j1 < j2 < ks.len() ==> ks[j1] < ks[j2],
                forall|q: int|
                    0 <= q < k ==> ((exists|j: int| 0 <= j < ks.len() && #[trigger] ks[j] == q)
                        <==> unifiable(
                        goal,
                        fresh_renamed(#[trigger] self@.axioms[q], goal, m0).conclusion,
                        m0,
                    )),
            decreases self.axioms@.len() - k,
        {
            let ghost st = renamer@;
            proof {
                crate::naming::lemma_fresh_rename_rule_vars(self.axioms@[k as int]@, st);
                lemma_rule_views_of_index(self.axioms@, k as int);
            }
            let candidate = self.axioms[k].rename_variables(&mut renamer);
            proof {
                assert(candidate@ == fresh_renamed(self@.axioms[k as int], goal, m0));
            }
            let unification_substitutions = substitutions.clone();
            let attempt = judgement.unify_with_substitution(
                &candidate.conclusion,
                unification_substitutions,
            );
            let ghost ks_before = ks;
            match attempt {
                Ok(s) => {
                    proof {
                        use_type_invariant(&s);
                        assert(is_fresh_renaming(candidate@, self@.axioms[k as int]));
                        assert(path_ok((s, candidate), self@.axioms, m0, goal));
                        ks = ks.push(k as int);
                    }
                    result.push((s, candidate));
                    proof {
                        assert forall|q: int| 0 <= q < k + 1 implies ((exists|j: int|
                            0 <= j < ks.len() && #[trigger] ks[j] == q) <==> unifiable(
                            goal,
                            fresh_renamed(#[trigger] self@.axioms[q], goal, m0).conclusion,
                            m0,
                        )) by {
                            if q == k {
                                assert(ks[ks.len() - 1] == q);
                            } else {
                                if exists|j: int| 0 <= j < ks.len() && #[trigger] ks[j] == q {
                                    let j = choose|j: int|
                                        0 <= j < ks.len() && #[trigger] ks[j] == q;
                                    assert(j < ks_before.len());
                                    assert(ks_before[j] == q);
                                }
                                if exists|j: int|
                                    0 <= j < ks_before.len() && #[trigger] ks_before[j] == q {
                                    let j = choose|j: int|
                                        0 <= j < ks_before.len() && #[trigger] ks_before[j] == q;
                                    assert(ks[j] == q);
                                }
                            }
                        }
                    }
                },
                Err(_e) => {
                    proof {
                        assert(!unifiable(goal, candidate@.conclusion, m0));
                        assert forall|q: int| 0 <= q < k + 1 implies ((exists|j: int|
                            0 <= j < ks.len() && #[trigger] ks[j] == q) <==> unifiable(
                            goal,
                            fresh_renamed(#[trigger] self@.axioms[q], goal, m0).conclusion,
                            m0,
                        )) by {
                            if q == k {
                                if exists|j: int| 0 <= j < ks.len() && #[trigger] ks[j] == q {
                                    let j = choose|j: int|
                                        0 <= j < ks.len() && #[trigger] ks[j] == q;
                                }
                            }
                        }
                    }
                },
            }
            k = k + 1;
        }
        proof {
            assert(paths_complete(result@, ks, self@.axioms, m0, goal));
        }
        result
    }

    /// The recursive search: find a derivation of the goal under the current
    /// table, no taller than the bound allows. On success the derivation
    /// concludes the goal as given, stays within the height left under the
    /// bound, is justified against the axioms under the returned table, and
    /// that table refines the caller's. Above the bound, and on a goal whose
    /// normalised form the bin already holds, the search fails at once and
    /// leaves the bin alone; any other failure records the goal's normalised
    /// form in the bin, which only ever grows at the end. A goal that a fresh
    /// renaming of some zero-premise axiom unifies with never fails.
    fn verify_recursion(
        &self,
        bin: &mut Vec<Judgement>,
        substitutions: &Substitution,
        judgement: &Judgement,
        height: u32,
    ) -> (r: Option<(Derivation, Substitution)>)
        ensures
            r is Some ==> {
                let (d, s) = r->0;
                &&& d@.conclusion == judgement@
                &&& table_wf(s@)
                &&& refines(s@, substitutions@)
                &&& search_wf(d@, self@.axioms, s@)
                &&& deriv_height(d@) + height <= self.max_derivation_height + 1
            },
            bin_extends(final(bin)@, old(bin)@),
            height > self.max_derivation_height as u32 ==> r is None && final(bin)@ == old(bin)@,
            height <= self.max_derivation_height as u32 && bin_has(
                old(bin)@,
                normal_form(judgement@, substitutions@),
            ) ==> r is None && final(bin)@ == old(bin)@,
            r is None && height <= self.max_derivation_height as u32 ==> bin_has(
                final(bin)@,
                normal_form(judgement@, substitutions@),
            ),
            height <= self.max_derivation_height as u32 && !bin_has(
                old(bin)@,
                normal_form(judgement@, substitutions@),
            ) && (exists|k: int|
                0 <= k < self@.axioms.len() && (#[trigger] self@.axioms[k]).premises.len() == 0
                    && unifiable(
                    judgement@,
                    fresh_renamed(self@.axioms[k], judgement@, substitutions@).conclusion,
                    substitutions@,
                )) ==> r is Some,
        decreases self.max_derivation_height + 1 - height,
    {
        proof {
            use_type_invariant(substitutions);
            lemma_bin_extends_refl(bin@);
        }
        if height > self.max_derivation_height as u32 {
            return None;
        }
        let resolved = judgement.apply_substitution(substitutions);
        let mut canon = crate::naming::CanonRenamer::new();
        let normalized_judgement = resolved.rename_variables(&mut canon);
        let ghost nf = normalized_judgement@;
        proof {
            assert(nf == normal_form(judgement@, substitutions@));
        }
        let mut b: usize = 0;
        while b < bin.len()
            invariant
                b <= bin@.len(),
                bin@ == old(bin)@,
                nf == normalized_judgement@,
                nf == normal_form(judgement@, substitutions@),
                height <= self.max_derivation_height as u32,
                forall|j: int| 0 <= j < b ==> (#[trigger] bin@[j])@ != nf,
            decreases bin@.len() - b,
        {
            if bin[b].eq(&normalized_judgement) {
                proof {
                    lemma_bin_extends_refl(bin@);
                    assert(bin_has(old(bin)@, nf));
                }
                return None;
            }
            b = b + 1;
        }
        proof {
            assert(!bin_has(old(bin)@, nf)) by {
                if bin_has(old(bin)@, nf) {
                    let j = choose|j: int| 0 <= j < old(bin)@.len() && (#[trigger] old(
                        bin,
                    )@[j])@ == nf;
                }
            }
        }
        let paths = self.get_possible_derivation_paths(substitutions, judgement);
        let ghost m0 = substitutions@;
        let mut pi: usize = 0;
        while pi < paths.len()
            invariant
                pi <= paths@.len(),
                m0 == substitutions@,
                table_wf(m0),
                height <= self.max_derivation_height as u32,
                bin_extends(bin@, old(bin)@),
                !bin_has(old(bin)@, nf),
                nf == normal_form(judgement@, m0),
                forall|j: int|
                    0 <= j < paths@.len() ==> path_ok(
                        #[trigger] paths@[j],
                        self@.axioms,
                        m0,
                        judgement@,
                    ),
                forall|j: int| 0 <= j < pi ==> (#[trigger] paths@[j]).1@.premises.len() != 0,
            decreases paths@.len() - pi,
        {
            let (path_substitutions, rule) = &paths[pi];
            let ghost mp = path_substitutions@;
            let perms = permutations_all(&rule.premises);
            let ghost premise_views = views_of(rule.premises@);
            let mut p_idx: usize = 0;
            while p_idx < perms.len()
                invariant
                    p_idx <= perms@.len(),
                    m0 == substitutions@,
                    mp == path_substitutions@,
                    table_wf(m0),
                    height <= self.max_derivation_height as u32,
                    bin_extends(bin@, old(bin)@),
                    !bin_has(old(bin)@, nf),
                    nf == normal_form(judgement@, m0),
                    path_ok(paths@[pi as int], self@.axioms, m0, judgement@),
                    paths@[pi as int].0 == *path_substitutions,
                    paths@[pi as int].1 == *rule,
                    premise_views == views_of(rule.premises@),
                    perms@.map_values(|p: Vec<Judgement>| views_of(p@)) == all_perms(
                        premise_views,
                    ),
                    p_idx > 0 ==> premise_views.len() != 0,
                decreases perms@.len() - p_idx,
            {
                let premises_perm = &perms[p_idx];
                let ghost perm_views = views_of(premises_perm@);
                proof {
                    assert(perm_views == perms@.map_values(
                        |p: Vec<Judgement>| views_of(p@),
                    )[p_idx as int]);
                    lemma_all_perms_shape(premise_views, p_idx as int);
                }
                let mut premises_proofs: Vec<Derivation> = Vec::new();
                let mut current = path_substitutions.clone();
                proof {
                    lemma_refines_refl(mp);
                }
                let mut failed = false;
                let mut q: usize = 0;
                while q < premises_perm.len() && !failed
                    invariant
                        q <= premises_perm@.len(),
                        m0 == substitutions@,
                        table_wf(m0),
                        height <= self.max_derivation_height as u32,
                        bin_extends(bin@, old(bin)@),
                        !bin_has(old(bin)@, nf),
                        nf == normal_form(judgement@, m0),
                        perm_views == views_of(premises_perm@),
                        failed ==> premises_perm@.len() != 0,
                        !failed ==> premises_proofs@.len() == q,
                        !failed ==> forall|j: int|
                            0 <= j < q ==> deriv_height((#[trigger] premises_proofs@[j])@)
                                + height + 1 <= self.max_derivation_height + 1,
                        !failed ==> table_wf(current@),
                        !failed ==> refines(current@, mp),
                        !failed ==> refines(current@, m0),
                        !failed ==> forall|j: int|
                            0 <= j < q ==> search_wf(
                                (#[trigger] premises_proofs@[j])@,
                                self@.axioms,
                                current@,
                            ) && premises_proofs@[j]@.conclusion == perm_views[j],
                    decreases premises_perm@.len() - q,
                {
                    proof {
                        use_type_invariant(&current);
                        lemma_views_of_len(premises_perm@);
                        lemma_views_of_index(premises_perm@, q as int);
                    }
                    let ghost bin_before = bin@;
                    let attempt = self.verify_recursion(
                        bin,
                        &current,
                        &premises_perm[q],
                        height + 1,
                    );
                    proof {
                        lemma_bin_extends_trans(bin@, bin_before, old(bin)@);
                    }
                    match attempt {
                        Some(pair) => {
                            let (premise_proof, new_substitutions) = pair;
                            proof {
                                use_type_invariant(&new_substitutions);
                                let prev = current@;
                                let cur = new_substitutions@;
                                lemma_refines_trans(mp, prev, cur);
                                lemma_refines_trans(m0, prev, cur);
                                assert forall|j: int| 0 <= j < q implies search_wf(
                                    (#[trigger] premises_proofs@[j])@,
                                    self@.axioms,
                                    cur,
                                ) by {
                                    lemma_search_wf_refines(
                                        premises_proofs@[j]@,
                                        self@.axioms,
                                        prev,
                                        cur,
                                    );
                                }
                            }
                            premises_proofs.push(premise_proof);
                            current = new_substitutions;
                        },
                        None => {
                            failed = true;
                        },
                    }
                    q = q + 1;
                }
                if !failed {
                    proof {
                        use_type_invariant(&current);
                        lemma_views_of_len(premises_perm@);
                    }
                    let proof_node = Derivation {
                        premises: premises_proofs,
                        conclusion: judgement.clone(),
                        rule_label: rule.name.clone(),
                    };
                    proof {
                        let d = proof_node@;
                        let cur = current@;
                        let axs = self@.axioms;
                        let i = choose|i: int|
                            0 <= i < axs.len() && is_fresh_renaming(rule@, #[trigger] axs[i])
                                && rule@.name == axs[i].name;
                        let ord = choose|ord: Seq<int>|
                            reads_by(
                                all_perms(premise_views)[p_idx as int],
                                premise_views,
                                ord,
                            );
                        lemma_refines_apply(judgement@, mp, cur);
                        lemma_refines_apply(rule@.conclusion, mp, cur);
                        assert(subst_apply(rule@.conclusion, cur) == subst_apply(
                            d.conclusion,
                            cur,
                        ));
                        lemma_deriv_views_of_index(proof_node.premises@, 0);
                        assert forall|j: int| 0 <= j < ord.len() implies (
                        #[trigger] d.premises[j]).conclusion == rule@.premises[ord[j]] by {
                            lemma_deriv_views_of_index(proof_node.premises@, j);
                            assert(d.premises[j] == premises_proofs@[j]@);
                            assert(premises_proofs@[j]@.conclusion == perm_views[j]);
                        }
                        assert(search_node_wf_by(d, axs, cur, i, rule@, ord));
                        lemma_searches_wf_index(d.premises, axs, cur);
                        assert forall|j: int| 0 <= j < d.premises.len() implies search_wf(
                            #[trigger] d.premises[j],
                            axs,
                            cur,
                        ) by {
                            lemma_deriv_views_of_index(proof_node.premises@, j);
                        }
                        assert(search_wf(d, axs, cur));
                        assert forall|j: int| 0 <= j < d.premises.len() implies deriv_height(
                            #[trigger] d.premises[j],
                        ) <= (self.max_derivation_height + 1 - height - 1) as nat by {
                            lemma_deriv_views_of_index(proof_node.premises@, j);
                        }
                        lemma_derivs_height_bound(
                            d.premises,
                            (self.max_derivation_height + 1 - height - 1) as nat,
                        );
                        assert(deriv_height(d) + height <= self.max_derivation_height + 1);
                    }
                    return Some((proof_node, current));
                }
                proof {
                    lemma_views_of_len(premises_perm@);
                    let ord = choose|ord: Seq<int>|
                        reads_by(all_perms(premise_views)[p_idx as int], premise_views, ord);
                    assert(perm_views.len() == premise_views.len());
                    assert(premise_views.len() != 0);
                }
                p_idx = p_idx + 1;
            }
            proof {
                lemma_views_of_len(rule.premises@);
                if premise_views.len() == 0 {
                    assert(all_perms(premise_views).len() == 1);
                    assert(perms@.map_values(|p: Vec<Judgement>| views_of(p@)).len() == 1);
                    assert(p_idx > 0);
                }
                assert(paths@[pi as int].1@.premises.len() != 0);
            }
            pi = pi + 1;
        }
        proof {
            if exists|k: int|
                0 <= k < self@.axioms.len() && (#[trigger] self@.axioms[k]).premises.len() == 0
                    && unifiable(
                    judgement@,
                    fresh_renamed(self@.axioms[k], judgement@, m0).conclusion,
                    m0,
                ) {
                let k = choose|k: int|
                    0 <= k < self@.axioms.len() && (#[trigger] self@.axioms[k]).premises.len()
                        == 0 && unifiable(
                        judgement@,
                        fresh_renamed(self@.axioms[k], judgement@, m0).conclusion,
                        m0,
                    );
                let ks = choose|ks: Seq<int>|
                    #[trigger] paths_complete(paths@, ks, self@.axioms, m0, judgement@);
                assert(exists|j: int| 0 <= j < ks.len() && #[trigger] ks[j] == k);
                let j = choose|j: int| 0 <= j < ks.len() && #[trigger] ks[j] == k;
                assert(paths@[j].1@ == fresh_renamed(self@.axioms[k], judgement@, m0));
                crate::lemma_rename_terms_len::<crate::naming::FreshRenamer>(
                    self@.axioms[k].premises,
                    term_vars(judgement@).union(table_vars(m0)),
                );
                assert(paths@[j].1@.premises.len() == 0);
            }
        }
        let ghost bin_pre = bin@;
        bin.push(normalized_judgement);
        proof {
            assert(bin@.subrange(0, bin_pre.len() as int) =~= bin_pre);
            lemma_bin_extends_trans(bin@, bin_pre, old(bin)@);
            assert((bin@[bin_pre.len() as int])@ == nf);
            assert(bin_has(bin@, nf));
        }
        None
    }

    /// Search for a derivation of the judgement, no taller than the system's
    /// bound plus its root. On success every node of the derivation applies a
    /// fresh renaming of one of the system's axioms, and the root concludes
    /// the goal carrying the bindings the search chose. A judgement that a
    /// fresh renaming of some zero-premise axiom unifies with is always
    /// derived.
    pub fn verify(&self, judgement: &Judgement) -> (r: Option<Derivation>)
        ensures
            r is Some ==> deriv_wf((r->0)@, self@.axioms),
            r is Some ==> exists|m: TableView|
                table_wf(m) && (r->0)@.conclusion == subst_apply(judgement@, m),
            r is Some ==> deriv_height((r->0)@) <= self@.max_derivation_height + 1,
            (exists|k: int|
                0 <= k < self@.axioms.len() && (#[trigger] self@.axioms[k]).premises.len() == 0
                    && unifiable(
                    judgement@,
                    fresh_renamed(self@.axioms[k], judgement@, Map::empty()).conclusion,
                    Map::empty(),
                )) ==> r is Some,
    {
        let mut bin: Vec<Judgement> = Vec::new();
        let empty = Substitution::empty();
        proof {
            assert(!bin_has(bin@, normal_form(judgement@, empty@))) by {
                if bin_has(bin@, normal_form(judgement@, empty@)) {
                    let i = choose|i: int|
                        0 <= i < bin@.len() && (#[trigger] bin@[i])@ == normal_form(
                            judgement@,
                            empty@,
                        );
                }
            }
        }
        let outcome = self.verify_recursion(&mut bin, &empty, judgement, 0);
        match outcome {
            Some(pair) => {
                let (proof_tree, substitutions) = pair;
                proof {
                    use_type_invariant(&substitutions);
                    lemma_collapse_wf(proof_tree@, self@.axioms, substitutions@);
                }
                let collapsed = proof_tree.apply_substitution(&substitutions);
                proof {
                    assert(table_wf(substitutions@) && collapsed@.conclusion == subst_apply(
                        judgement@,
                        substitutions@,
                    ));
                    lemma_deriv_apply_height(proof_tree@, substitutions@);
                }
                Some(collapsed)
            },
            None => None,
        }
    }
}

/// A run of spaces.
pub open spec fn space_seq(n: nat) -> Seq<char> {
    Seq::new(n, |i: int| ' ')
}

/// A run of hyphens: the bar of a rendered rule.
pub open spec fn bar_seq(n: nat) -> Seq<char> {
    Seq::new(n, |i: int| '-')
}

/// A string centred in a field of the given width; when the padding is odd,
/// the extra space goes to the right. A string too wide for the field stands
/// unchanged.
pub open spec fn centered(s: Seq<char>, w: nat) -> Seq<char> {
    if s.len() >= w {
        s
    } else {
        space_seq(((w - s.len()) / 2) as nat) + s + space_seq(
            ((w - s.len()) - (w - s.len()) / 2) as nat,
        )
    }
}

/// Every line of a block padded on the right with the two-space separator
/// that stands between premises.
pub open spec fn pad_lines(b: Seq<Seq<char>>) -> Seq<Seq<char>> {
    b.map_values(|l: Seq<char>| l + seq![' ', ' '])
}

/// The rendered blocks of a row of premises: every block but the last carries
/// the separator.
pub open spec fn pp_blocks(ds: Seq<DerivationView>) -> Seq<Seq<Seq<char>>>
    decreases ds,
{
    if ds.len() == 0 {
        Seq::empty()
    } else if ds.len() == 1 {
        seq![pp_lines(ds.first())]
    } else {
        seq![pad_lines(pp_lines(ds.first()))] + pp_blocks(ds.drop_first())
    }
}

/// The width a block takes in a merged row: that of its first line.
pub open spec fn block_width(b: Seq<Seq<char>>) -> nat {
    if b.len() == 0 {
        0
    } else {
        b.first().len()
    }
}

/// The summed first-line widths of a row of blocks.
pub open spec fn blocks_width(bs: Seq<Seq<Seq<char>>>) -> nat
    decreases bs,
{
    if bs.len() == 0 {
        0
    } else {
        block_width(bs.first()) + blocks_width(bs.drop_first())
    }
}

/// The tallest block of a row.
pub open spec fn blocks_height(bs: Seq<Seq<Seq<char>>>) -> nat
    decreases bs,
{
    if bs.len() == 0 {
        0
    } else if bs.first().len() >= blocks_height(bs.drop_first()) {
        bs.first().len()
    } else {
        blocks_height(bs.drop_first())
    }
}

/// One merged premise row: the `i`-th line of every block side by side, a
/// block whose lines have run out standing in as spaces of its width.
pub open spec fn merged_row(bs: Seq<Seq<Seq<char>>>, i: int) -> Seq<char>
    decreases bs,
{
    if bs.len() == 0 {
        Seq::empty()
    } else {
        (if 0 <= i < bs.first().len() {
            bs.first()[i]
        } else {
            space_seq(block_width(bs.first()))
        }) + merged_row(bs.drop_first(), i)
    }
}

/// The lines of a rendered derivation, conclusion line first, then the bar
/// line, then the merged premise rows; `to_string_tree` flips them so that
/// premises stand above the bar.
pub open spec fn pp_lines(d: DerivationView) -> Seq<Seq<char>>
    decreases d,
{
    let conclusion = text_of(d.conclusion);
    let label = d.rule_label;
    let bs = pp_blocks(d.premises);
    let premises_width = blocks_width(bs);
    let padded_width = conclusion.len() + label.len();
    let w1 = if premises_width >= padded_width {
        premises_width
    } else {
        padded_width
    };
    let bar_width = if w1 >= conclusion.len() + 2 {
        w1
    } else {
        conclusion.len() + 2
    };
    let max_width = if w1 >= bar_width + label.len() {
        w1
    } else {
        bar_width + label.len()
    };
    seq![
        space_seq(label.len()) + centered(conclusion, (max_width - label.len()) as nat),
        label + centered(bar_seq(bar_width), (max_width - label.len()) as nat),
    ] + Seq::new(blocks_height(bs), |i: int| centered(merged_row(bs, i), max_width))
}

/// The widths of a derivation's rendering stay within the machine: what the
/// layout sums at each node fits a `usize`.
pub open spec fn pp_fits(d: DerivationView) -> bool
    decreases d,
{
    &&& blocks_width(pp_blocks(d.premises)) + text_of(d.conclusion).len() + 2 * d.rule_label.len()
        + 2 <= usize::MAX
    &&& pps_fit(d.premises)
}

pub open spec fn pps_fit(ds: Seq<DerivationView>) -> bool
    decreases ds,
{
    if ds.len() == 0 {
        true
    } else {
        pps_fit(ds.drop_last()) && pp_fits(ds.last())
    }
}

proof fn lemma_pps_fit_index(ds: Seq<DerivationView>, i: int)
    requires
        pps_fit(ds),
        0 <= i < ds.len(),
    ensures
        pp_fits(ds[i]),
    decreases ds,
{
    if i < ds.len() - 1 {
        lemma_pps_fit_index(ds.drop_last(), i);
        assert(ds.drop_last()[i] == ds[i]);
    }
}

proof fn lemma_pp_blocks_index(ds: Seq<DerivationView>, k: int)
    requires
        0 <= k < ds.len(),
    ensures
        pp_blocks(ds).len() == ds.len(),
        pp_blocks(ds)[k] == if k < ds.len() - 1 {
            pad_lines(pp_lines(ds[k]))
        } else {
            pp_lines(ds[k])
        },
    decreases ds,
{
    lemma_pp_blocks_len(ds);
    if ds.len() > 1 {
        if k == 0 {
        } else {
            lemma_pp_blocks_index(ds.drop_first(), k - 1);
            assert(ds.drop_first()[k - 1] == ds[k]);
            assert(pp_blocks(ds)[k] == pp_blocks(ds.drop_first())[k - 1]);
        }
    }
}

proof fn lemma_pp_blocks_len(ds: Seq<DerivationView>)
    ensures
        pp_blocks(ds).len() == ds.len(),
    decreases ds,
{
    if ds.len() > 1 {
        lemma_pp_blocks_len(ds.drop_first());
    }
}

proof fn lemma_blocks_width_append(a: Seq<Seq<Seq<char>>>, b: Seq<Seq<Seq<char>>>)
    ensures
        blocks_width(a + b) == blocks_width(a) + blocks_width(b),
    decreases a,
{
    if a.len() == 0 {
        assert(a + b =~= b);
    } else {
        assert((a + b).first() == a.first());
        assert((a + b).drop_first() =~= a.drop_first() + b);
        lemma_blocks_width_append(a.drop_first(), b);
    }
}

proof fn lemma_blocks_height_append(a: Seq<Seq<Seq<char>>>, b: Seq<Seq<Seq<char>>>)
    ensures
        blocks_height(a + b) == if blocks_height(a) >= blocks_height(b) {
            blocks_height(a)
        } else {
            blocks_height(b)
        },
    decreases a,
{
    if a.len() == 0 {
        assert(a + b =~= b);
    } else {
        assert((a + b).first() == a.first());
        assert((a + b).drop_first() =~= a.drop_first() + b);
        lemma_blocks_height_append(a.drop_first(), b);
    }
}

proof fn lemma_merged_row_append(a: Seq<Seq<Seq<char>>>, b: Seq<Seq<Seq<char>>>, i: int)
    ensures
        merged_row(a + b, i) == merged_row(a, i) + merged_row(b, i),
    decreases a,
{
    if a.len() == 0 {
        assert(a + b =~= b);
        assert(merged_row(a, i) =~= Seq::<char>::empty());
        assert(merged_row(a, i) + merged_row(b, i) =~= merged_row(b, i));
    } else {
        assert((a + b).first() == a.first());
        assert((a + b).drop_first() =~= a.drop_first() + b);
        lemma_merged_row_append(a.drop_first(), b, i);
        let head = if 0 <= i < a.first().len() {
            a.first()[i]
        } else {
            space_seq(block_width(a.first()))
        };
        assert(merged_row(a + b, i) == head + (merged_row(a.drop_first(), i) + merged_row(b, i)));
        assert(merged_row(a, i) == head + merged_row(a.drop_first(), i));
        assert(head + (merged_row(a.drop_first(), i) + merged_row(b, i)) =~= (head + merged_row(
            a.drop_first(),
            i,
        )) + merged_row(b, i));
    }
}

/// Every rendering has at least its conclusion line and its bar line.
pub proof fn lemma_pp_lines_len(d: DerivationView)
    ensures
        pp_lines(d).len() == 2 + blocks_height(pp_blocks(d.premises)),
{
}

/// A run of spaces.
fn spaces(n: usize) -> (r: String)
    ensures
        r@ == space_seq(n as nat),
{
    proof {
        reveal_strlit(" ");
    }
    let mut s = String::new();
    let mut i: usize = 0;
    while i < n
        invariant
            i <= n,
            s@.len() == i,
            forall|k: int| 0 <= k < i ==> s@[k] == ' ',
        decreases n - i,
    {
        proof {
            reveal_strlit(" ");
        }
        s.append(" ");
        i = i + 1;
    }
    proof {
        assert(s@ =~= space_seq(n as nat));
    }
    s
}

/// A run of hyphens.
fn hyphens(n: usize) -> (r: String)
    ensures
        r@ == bar_seq(n as nat),
{
    proof {
        reveal_strlit("-");
    }
    let mut s = String::new();
    let mut i: usize = 0;
    while i < n
        invariant
            i <= n,
            s@.len() == i,
            forall|k: int| 0 <= k < i ==> s@[k] == '-',
        decreases n - i,
    {
        proof {
            reveal_strlit("-");
        }
        s.append("-");
        i = i + 1;
    }
    proof {
        assert(s@ =~= bar_seq(n as nat));
    }
    s
}

/// A string centred in a field of the given width.
fn centered_in(s: &str, width: usize) -> (r: String)
    ensures
        r@ == centered(s@, width as nat),
{
    let len = s.unicode_len();
    if len >= width {
        s.to_owned()
    } else {
        let left = (width - len) / 2;
        let mut r = spaces(left);
        r.append(s);
        let right = spaces(width - len - left);
        r.append(right.as_str());
        proof {
            assert(r@ =~= centered(s@, width as nat));
        }
        r
    }
}

impl Derivation {
    /// Render the derivation as fixed-width lines: the conclusion centred
    /// under a hyphen bar prefixed by the rule label, then the premises'
    /// blocks side by side, separated by two spaces, each row centred. Lines
    /// come conclusion first; `to_string_tree` flips them. The widths the
    /// layout sums must fit the machine.
    pub fn pretty_print(&self) -> (r: Vec<String>)
        requires
            pp_fits(self@),
        ensures
            r@.map_values(|l: String| l@) == pp_lines(self@),
        decreases self,
    {
        let ghost dv = self@;
        let ghost bs = pp_blocks(dv.premises);
        let mut lines: Vec<String> = Vec::new();
        let mut premises_results: Vec<Vec<String>> = Vec::new();
        let mut premises_width: usize = 0;
        let mut max_premise_height: usize = 0;
        let conclusion_string = self.conclusion.to_text();
        let rule_label = self.rule_label.clone();
        let n = self.premises.len();
        proof {
            lemma_pp_blocks_len(dv.premises);
            lemma_deriv_views_of_index(self.premises@, 0);
            assert(bs.take(0) =~= Seq::<Seq<Seq<char>>>::empty());
        }
        let mut i: usize = 0;
        while i < n
            invariant
                i <= n,
                n == self.premises@.len(),
                dv == self@,
                bs == pp_blocks(dv.premises),
                dv.premises.len() == n,
                bs.len() == n,
                pp_fits(dv),
                premises_results@.len() == i,
                forall|k: int|
                    0 <= k < i ==> (#[trigger] premises_results@[k])@.map_values(|l: String| l@)
                        == bs[k],
                premises_width == blocks_width(bs.take(i as int)),
                max_premise_height == blocks_height(bs.take(i as int)),
            decreases n - i,
        {
            proof {
                let d = *self;
                assert(decreases_to!(d => d.premises));
                assert(decreases_to!(self.premises => self.premises@));
                assert(decreases_to!(self.premises@ => self.premises@[i as int]));
                lemma_deriv_views_of_index(self.premises@, i as int);
                lemma_pps_fit_index(dv.premises, i as int);
            }
            let sub = self.premises[i].pretty_print();
            let ghost sub_views = sub@.map_values(|l: String| l@);
            let premise_tree: Vec<String>;
            if i != n - 1 {
                let mut padded: Vec<String> = Vec::new();
                let mut k: usize = 0;
                while k < sub.len()
                    invariant
                        k <= sub@.len(),
                        padded@.len() == k,
                        sub_views == sub@.map_values(|l: String| l@),
                        forall|j: int|
                            0 <= j < k ==> (#[trigger] padded@[j])@ == sub_views[j] + seq![
                                ' ',
                                ' ',
                            ],
                    decreases sub@.len() - k,
                {
                    let mut line = sub[k].clone();
                    line.append("  ");
                    proof {
                        reveal_strlit("  ");
                        assert(line@ =~= sub_views[k as int] + seq![' ', ' ']);
                    }
                    padded.push(line);
                    k = k + 1;
                }
                proof {
                    assert(padded@.map_values(|l: String| l@) =~= pad_lines(sub_views));
                }
                premise_tree = padded;
            } else {
                premise_tree = sub;
            }
            proof {
                lemma_pp_blocks_index(dv.premises, i as int);
                assert(premise_tree@.map_values(|l: String| l@) == bs[i as int]);
                assert(bs.take(i as int).push(bs[i as int]) =~= bs.take(i + 1int));
                lemma_blocks_width_append(bs.take(i as int), seq![bs[i as int]]);
                lemma_blocks_height_append(bs.take(i as int), seq![bs[i as int]]);
                assert(bs.take(i as int) + seq![bs[i as int]] =~= bs.take(i + 1int));
                assert(blocks_width(Seq::<Seq<Seq<char>>>::empty()) == 0);
                assert(blocks_height(Seq::<Seq<Seq<char>>>::empty()) == 0);
                assert(blocks_width(seq![bs[i as int]]) == block_width(bs[i as int])) by {
                    assert(blocks_width(Seq::<Seq<Seq<char>>>::empty()) == 0);
                    assert(seq![bs[i as int]].drop_first() =~= Seq::<Seq<Seq<char>>>::empty());
                    assert(seq![bs[i as int]].first() == bs[i as int]);
                }
                assert(blocks_height(seq![bs[i as int]]) == bs[i as int].len()) by {
                    assert(blocks_height(Seq::<Seq<Seq<char>>>::empty()) == 0);
                    assert(seq![bs[i as int]].drop_first() =~= Seq::<Seq<Seq<char>>>::empty());
                    assert(seq![bs[i as int]].first() == bs[i as int]);
                }
                lemma_blocks_width_append(bs.take(i + 1int), bs.skip(i + 1int));
                assert(bs.take(i + 1int) + bs.skip(i + 1int) =~= bs);
            }
            if premise_tree.len() > max_premise_height {
                max_premise_height = premise_tree.len();
            }
            let w: usize = if premise_tree.len() > 0 {
                premise_tree[0].as_str().unicode_len()
            } else {
                0
            };
            proof {
                if premise_tree@.len() > 0 {
                    assert(premise_tree@.map_values(|l: String| l@)[0] == premise_tree@[0]@);
                }
            }
            premises_width = premises_width + w;
            premises_results.push(premise_tree);
            i = i + 1;
        }
        proof {
            assert(bs.take(n as int) =~= bs);
        }
        let concl_width = conclusion_string.as_str().unicode_len();
        let label_len = rule_label.as_str().unicode_len();
        let padded_width = concl_width + label_len;
        let w1 = if premises_width >= padded_width {
            premises_width
        } else {
            padded_width
        };
        let bar_width = if w1 >= concl_width + 2 {
            w1
        } else {
            concl_width + 2
        };
        let max_width = if w1 >= bar_width + label_len {
            w1
        } else {
            bar_width + label_len
        };
        let field = max_width - label_len;
        let mut line0 = spaces(label_len);
        let centered_conclusion = centered_in(conclusion_string.as_str(), field);
        line0.append(centered_conclusion.as_str());
        lines.push(line0);
        let bar = hyphens(bar_width);
        let mut line1 = rule_label.clone();
        let centered_bar = centered_in(bar.as_str(), field);
        line1.append(centered_bar.as_str());
        lines.push(line1);
        proof {
            assert(lines@.map_values(|l: String| l@)[0] == pp_lines(dv)[0]);
            assert(lines@.map_values(|l: String| l@)[1] == pp_lines(dv)[1]);
        }
        let ghost spec_max_width = (max_width as nat);
        let mut row_i: usize = 0;
        while row_i < max_premise_height
            invariant
                row_i <= max_premise_height,
                dv == self@,
                bs == pp_blocks(dv.premises),
                bs.len() == premises_results@.len(),
                max_premise_height == blocks_height(bs),
                forall|k: int|
                    0 <= k < premises_results@.len() ==> (
                    #[trigger] premises_results@[k])@.map_values(|l: String| l@) == bs[k],
                lines@.len() == 2 + row_i,
                forall|j: int|
                    0 <= j < lines@.len() ==> (#[trigger] lines@[j])@ == pp_lines(dv)[j],
                spec_max_width == pp_lines_width(dv),
                max_width == spec_max_width,
            decreases max_premise_height - row_i,
        {
            let mut line = String::new();
            let mut k: usize = 0;
            proof {
                assert(bs.take(0) =~= Seq::<Seq<Seq<char>>>::empty());
                assert(line@ =~= merged_row(bs.take(0), row_i as int));
            }
            while k < premises_results.len()
                invariant
                    k <= premises_results@.len(),
                    bs.len() == premises_results@.len(),
                    forall|j: int|
                        0 <= j < premises_results@.len() ==> (
                        #[trigger] premises_results@[j])@.map_values(|l: String| l@) == bs[j],
                    line@ == merged_row(bs.take(k as int), row_i as int),
                decreases premises_results@.len() - k,
            {
                let ghost bsk = bs[k as int];
                proof {
                    assert(premises_results@[k as int]@.map_values(|l: String| l@) == bsk);
                }
                if row_i < premises_results[k].len() {
                    proof {
                        assert(premises_results@[k as int]@.map_values(|l: String| l@)[row_i as int]
                            == premises_results@[k as int]@[row_i as int]@);
                    }
                    let piece = premises_results[k][row_i].clone();
                    line.append(piece.as_str());
                } else {
                    let bw: usize = if premises_results[k].len() > 0 {
                        proof {
                            assert(premises_results@[k as int]@.map_values(|l: String| l@)[0]
                                == premises_results@[k as int]@[0]@);
                        }
                        premises_results[k][0].as_str().unicode_len()
                    } else {
                        0
                    };
                    let pad_piece = spaces(bw);
                    line.append(pad_piece.as_str());
                }
                proof {
                    lemma_merged_row_append(bs.take(k as int), seq![bsk], row_i as int);
                    assert(bs.take(k as int) + seq![bsk] =~= bs.take(k + 1int));
                    assert(merged_row(seq![bsk], row_i as int) == (if 0 <= row_i < bsk.len() {
                        bsk[row_i as int]
                    } else {
                        space_seq(block_width(bsk))
                    }) + merged_row(Seq::<Seq<Seq<char>>>::empty(), row_i as int)) by {
                        assert(seq![bsk].drop_first() =~= Seq::<Seq<Seq<char>>>::empty());
                    }
                    assert(line@ =~= merged_row(bs.take(k + 1int), row_i as int));
                }
                k = k + 1;
            }
            proof {
                assert(bs.take(premises_results@.len() as int) =~= bs);
            }
            let merged = centered_in(line.as_str(), max_width);
            lines.push(merged);
            proof {
                assert(lines@[2 + row_i] == lines@.last());
                assert(lines@.last()@ == centered(merged_row(bs, row_i as int), spec_max_width));
                assert(pp_lines(dv)[2 + row_i] == centered(
                    merged_row(bs, row_i as int),
                    spec_max_width,
                ));
            }
            row_i = row_i + 1;
        }
        proof {
            lemma_pp_lines_len(dv);
            assert(lines@.map_values(|l: String| l@) =~= pp_lines(dv));
        }
        lines
    }

    /// The rendered proof tree as one string: the lines of `pretty_print`
    /// reversed, so premises stand above the bar and the conclusion at the
    /// bottom, each line ended by a newline, the whole led by one.
    pub fn to_string_tree(&self) -> (r: String)
        requires
            pp_fits(self@),
        ensures
            r@ == seq!['\n'] + reversed_text(pp_lines(self@)),
    {
        proof {
            reveal_strlit("\n");
        }
        let lines = self.pretty_print();
        let ghost views = lines@.map_values(|l: String| l@);
        let mut result: String = "\n".to_owned();
        proof {
            assert(views.skip(views.len() as int) =~= Seq::<Seq<char>>::empty());
            assert(result@ =~= seq!['\n'] + reversed_text(views.skip(views.len() as int)));
        }
        let mut i: usize = lines.len();
        while i > 0
            invariant
                i <= lines@.len(),
                views == lines@.map_values(|l: String| l@),
                result@ == seq!['\n'] + reversed_text(views.skip(i as int)),
            decreases i,
        {
            i = i - 1;
            proof {
                reveal_strlit("\n");
                assert(views[i as int] == lines@[i as int]@);
            }
            result.append(lines[i].as_str());
            result.append("\n");
            proof {
                lemma_reversed_text_append(seq![views[i as int]], views.skip(i + 1int));
                assert(seq![views[i as int]] + views.skip(i + 1int) =~= views.skip(i as int));
                assert(reversed_text(seq![views[i as int]]) == views[i as int] + seq!['\n']
                    + reversed_text(Seq::<Seq<char>>::empty())) by {
                    assert(seq![views[i as int]].drop_last() =~= Seq::<Seq<char>>::empty());
                }
                assert(result@ =~= seq!['\n'] + reversed_text(views.skip(i as int)));
            }
        }
        proof {
            assert(views.skip(0) =~= views);
        }
        result
    }
}

/// The lines in reverse order, each followed by a newline.
pub open spec fn reversed_text(ls: Seq<Seq<char>>) -> Seq<char>
    decreases ls,
{
    if ls.len() == 0 {
        Seq::empty()
    } else {
        ls.last() + seq!['\n'] + reversed_text(ls.drop_last())
    }
}

proof fn lemma_reversed_text_append(a: Seq<Seq<char>>, b: Seq<Seq<char>>)
    ensures
        reversed_text(a + b) == reversed_text(b) + reversed_text(a),
    decreases b,
{
    if b.len() == 0 {
        assert(a + b =~= a);
        assert(reversed_text(b) + reversed_text(a) =~= reversed_text(a));
    } else {
        assert((a + b).last() == b.last());
        assert((a + b).drop_last() =~= a + b.drop_last());
        lemma_reversed_text_append(a, b.drop_last());
        assert(reversed_text(a + b) == b.last() + seq!['\n'] + (reversed_text(b.drop_last())
            + reversed_text(a)));
        assert(reversed_text(b) == b.last() + seq!['\n'] + reversed_text(b.drop_last()));
        assert(b.last() + seq!['\n'] + (reversed_text(b.drop_last()) + reversed_text(a)) =~= (
        b.last() + seq!['\n'] + reversed_text(b.drop_last())) + reversed_text(a));
    }
}

/// The width every line of a rendering has.
pub open spec fn pp_lines_width(d: DerivationView) -> nat {
    let conclusion = text_of(d.conclusion);
    let label = d.rule_label;
    let bs = pp_blocks(d.premises);
    let premises_width = blocks_width(bs);
    let padded_width = conclusion.len() + label.len();
    let w1 = if premises_width >= padded_width {
        premises_width
    } else {
        padded_width
    };
    let bar_width = if w1 >= conclusion.len() + 2 {
        w1
    } else {
        conclusion.len() + 2
    };
    if w1 >= bar_width + label.len() {
        w1
    } else {
        bar_width + label.len()
    }
}

/// The row width of a sequence of rendered premises: each block's width,
/// with the two-space separator after every block but the last.
pub open spec fn pp_row_width(ds: Seq<DerivationView>) -> nat
    decreases ds,
{
    if ds.len() == 0 {
        0
    } else if ds.len() == 1 {
        pp_lines_width(ds.first())
    } else {
        pp_lines_width(ds.first()) + 2 + pp_row_width(ds.drop_first())
    }
}

/// The row width with a separator after every block.
pub open spec fn pp_row_sep(ds: Seq<DerivationView>) -> nat
    decreases ds,
{
    if ds.len() == 0 {
        0
    } else {
        pp_lines_width(ds.first()) + 2 + pp_row_sep(ds.drop_first())
    }
}

proof fn lemma_pp_row_split(ds: Seq<DerivationView>)
    requires
        ds.len() >= 1,
    ensures
        pp_row_width(ds) == pp_row_sep(ds.drop_last()) + pp_lines_width(ds.last()),
    decreases ds,
{
    if ds.len() == 1 {
        assert(ds.drop_last() =~= Seq::<DerivationView>::empty());
    } else {
        lemma_pp_row_split(ds.drop_first());
        assert(ds.drop_first().drop_last() =~= ds.drop_last().drop_first());
        assert(ds.drop_first().last() == ds.last());
        assert(ds.drop_last().first() == ds.first());
        assert(ds.drop_last().len() >= 1);
    }
}

proof fn lemma_pp_row_sep_push(ds: Seq<DerivationView>, d: DerivationView)
    ensures
        pp_row_sep(ds.push(d)) == pp_row_sep(ds) + pp_lines_width(d) + 2,
    decreases ds,
{
    if ds.len() == 0 {
        assert(ds.push(d).first() == d);
        assert(ds.push(d).drop_first() =~= Seq::<DerivationView>::empty());
        assert(pp_row_sep(Seq::<DerivationView>::empty()) == 0);
        assert(pp_row_sep(ds) == 0);
    } else {
        assert(ds.push(d).first() == ds.first());
        assert(ds.push(d).drop_first() =~= ds.drop_first().push(d));
        lemma_pp_row_sep_push(ds.drop_first(), d);
    }
}

/// Every prefix of the row, plus the next block, fits inside the full row.
proof fn lemma_pp_row_tail(ds: Seq<DerivationView>, i: int)
    requires
        0 <= i < ds.len(),
    ensures
        pp_row_width(ds) >= pp_row_sep(ds.take(i)) + pp_lines_width(ds[i]),
    decreases ds.len() - i,
{
    if i == ds.len() - 1 {
        lemma_pp_row_split(ds);
        assert(ds.take(i) =~= ds.drop_last());
    } else {
        lemma_pp_row_tail(ds, i + 1);
        assert(ds.take(i + 1) =~= ds.take(i).push(ds[i]));
        lemma_pp_row_sep_push(ds.take(i), ds[i]);
    }
}

/// The first line of a rendering has the rendering's width, so a block is as
/// wide as the derivation it renders.
proof fn lemma_pp_first_width(d: DerivationView)
    ensures
        pp_lines(d).len() >= 2,
        pp_lines(d)[0].len() == pp_lines_width(d),
        block_width(pp_lines(d)) == pp_lines_width(d),
{
    let conclusion = text_of(d.conclusion);
    let label = d.rule_label;
    let mw = pp_lines_width(d);
    assert(conclusion.len() <= mw - label.len());
    assert(pp_lines(d)[0] == space_seq(label.len()) + centered(
        conclusion,
        (mw - label.len()) as nat,
    ));
    assert(centered(conclusion, (mw - label.len()) as nat).len() == mw - label.len());
}

/// The premises' summed block widths are the row width of their renderings.
proof fn lemma_blocks_width_is_row(ds: Seq<DerivationView>)
    ensures
        blocks_width(pp_blocks(ds)) == pp_row_width(ds),
    decreases ds,
{
    if ds.len() == 1 {
        lemma_pp_first_width(ds.first());
        assert(seq![pp_lines(ds.first())].drop_first() =~= Seq::<Seq<Seq<char>>>::empty());
        assert(blocks_width(Seq::<Seq<Seq<char>>>::empty()) == 0);
    } else if ds.len() > 1 {
        lemma_blocks_width_is_row(ds.drop_first());
        lemma_pp_first_width(ds.first());
        let padded = pad_lines(pp_lines(ds.first()));
        assert(padded.len() == pp_lines(ds.first()).len());
        assert(padded.first() == pp_lines(ds.first()).first() + seq![' ', ' ']);
        assert(block_width(padded) == pp_lines_width(ds.first()) + 2);
        let bs = seq![padded] + pp_blocks(ds.drop_first());
        assert(bs.first() == padded);
        assert(bs.drop_first() =~= pp_blocks(ds.drop_first()));
    }
}

/// The layout bound of one node, written over widths: what `pp_fits` asks of
/// it, without the blocks.
pub proof fn lemma_pp_fits_row(d: DerivationView)
    ensures
        pp_fits(d) <==> (pp_row_width(d.premises) + text_of(d.conclusion).len()
            + 2 * d.rule_label.len() + 2 <= usize::MAX && pps_fit(d.premises)),
{
    lemma_blocks_width_is_row(d.premises);
}

impl Derivation {
    /// The width this derivation renders at, when the widths its layout sums
    /// fit the machine, and `None` when they do not.
    fn render_width(&self) -> (r: Option<usize>)
        ensures
            match r {
                Some(w) => pp_fits(self@) && w == pp_lines_width(self@),
                None => !pp_fits(self@),
            },
        decreases self,
    {
        broadcast use lemma_deriv_views_of_index;

        let ghost dsv = self@.premises;
        let n = self.premises.len();
        let mut sum: usize = 0;
        let mut i: usize = 0;
        proof {
            lemma_pp_fits_row(self@);
            lemma_deriv_views_of_index(self.premises@, 0);
            assert(dsv.take(0) =~= Seq::<DerivationView>::empty());
        }
        while i < n
            invariant
                i <= n,
                n == self.premises@.len(),
                dsv == self@.premises,
                dsv.len() == n,
                sum == pp_row_sep(dsv.take(i as int)),
                pps_fit(dsv.take(i as int)),
            decreases n - i,
        {
            proof {
                let d = *self;
                assert(decreases_to!(d => d.premises));
                assert(decreases_to!(self.premises => self.premises@));
                assert(decreases_to!(self.premises@ => self.premises@[i as int]));
            }
            let child = self.premises[i].render_width();
            proof {
                lemma_deriv_views_of_index(self.premises@, i as int);
            }
            match child {
                Some(w) => {
                    proof {
                        assert(dsv[i as int] == self.premises@[i as int]@);
                        lemma_pp_row_tail(dsv, i as int);
                        lemma_pp_fits_row(self@);
                    }
                    if w > usize::MAX - 2 || sum > usize::MAX - 2 - w {
                        proof {
                            assert(pp_row_width(dsv) + 2 > usize::MAX);
                            assert(!pp_fits(self@));
                        }
                        return None;
                    }
                    sum = sum + w + 2;
                    proof {
                        assert(dsv.take(i + 1int) =~= dsv.take(i as int).push(dsv[i as int]));
                        lemma_pp_row_sep_push(dsv.take(i as int), dsv[i as int]);
                        assert(pps_fit(dsv.take(i + 1int))) by {
                            assert(dsv.take(i + 1int).drop_last() =~= dsv.take(i as int));
                            assert(dsv.take(i + 1int).last() == dsv[i as int]);
                        }
                    }
                },
                None => {
                    proof {
                        if pp_fits(self@) {
                            lemma_pps_fit_index(dsv, i as int);
                        }
                    }
                    return None;
                },
            }
            i = i + 1;
        }
        let conclusion_string = self.conclusion.to_text();
        let cw = conclusion_string.as_str().unicode_len();
        let label_len = self.rule_label.as_str().unicode_len();
        let ghost row = pp_row_width(dsv);
        proof {
            assert(dsv.take(n as int) =~= dsv);
            if n > 0 {
                lemma_pp_row_split(dsv);
                assert(dsv =~= dsv.drop_last().push(dsv.last()));
                lemma_pp_row_sep_push(dsv.drop_last(), dsv.last());
                assert(sum == pp_row_sep(dsv.drop_last()) + pp_lines_width(dsv.last()) + 2);
                assert(sum == row + 2);
            } else {
                assert(sum == 0 && row == 0);
            }
            lemma_pp_fits_row(self@);
        }
        // `sum` overshoots the row by one trailing separator when there are
        // premises, so the layout bound below still admits every fitting tree.
        let premises_width: usize = if n > 0 {
            sum - 2
        } else {
            0
        };
        if (premises_width as u128) + (cw as u128) + 2 * (label_len as u128) + 2 > (usize::MAX
            as u128) {
            proof {
                assert(!pp_fits(self@));
            }
            return None;
        }
        proof {
            assert(pp_fits(self@));
            lemma_blocks_width_is_row(dsv);
        }
        let padded_width = cw + label_len;
        let w1 = if premises_width >= padded_width {
            premises_width
        } else {
            padded_width
        };
        let bar_width = if w1 >= cw + 2 {
            w1
        } else {
            cw + 2
        };
        let max_width = if w1 >= bar_width + label_len {
            w1
        } else {
            bar_width + label_len
        };
        Some(max_width)
    }

    /// Whether the widths this derivation's rendering sums stay within the
    /// machine: the executable test for what `pretty_print` requires.
    pub fn fits_width(&self) -> (r: bool)
        ensures
            r == pp_fits(self@),
    {
        match self.render_width() {
            Some(_w) => true,
            None => false,
        }
    }
}

} // verus!
