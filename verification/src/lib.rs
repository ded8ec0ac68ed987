//! A toolbox for defining inference-rule-based formal systems and checking
//! judgements against them: a term algebra, a syntactic unifier with
//! occurs-check, and a backtracking proof searcher producing derivation trees.
use vstd::prelude::*;

pub mod logic;
pub mod naming;

verus! {

/// A symbolic term: either a variable, or a predicate applied to an ordered
/// sequence of subject terms. An operator with no subjects is a constant.
#[derive(Debug)]
pub enum Judgement {
    Operator { predicate: String, subjects: Vec<Judgement> },
    Variable(String),
}

impl Clone for Judgement {
    fn clone(&self) -> (r: Self)
        ensures
            r@ == self@,
        decreases self,
    {
        match self {
            Judgement::Variable(name) => Judgement::Variable(name.clone()),
            Judgement::Operator { predicate, subjects } => {
                let mut subs: Vec<Judgement> = Vec::new();
                let mut i: usize = 0;
                while i < subjects.len()
                    invariant
                        i <= subjects.len(),
                        subs@.len() == i,
                        forall|k: int| 0 <= k < i ==> subs@[k]@ == subjects@[k]@,
                        *self == (Judgement::Operator {
                            predicate: *predicate,
                            subjects: *subjects,
                        }),
                    decreases subjects.len() - i,
                {
                    proof {
                        let j = *self;
                        assert(decreases_to!(j => j->Operator_subjects));
                        assert(j->Operator_subjects == *subjects);
                        assert(decreases_to!(*subjects => subjects@));
                        assert(decreases_to!(subjects@ => subjects@[i as int]));
                    }
                    subs.push(subjects[i].clone());
                    i = i + 1;
                }
                proof {
                    lemma_views_of_len(subjects@);
                    lemma_views_of_len(subs@);
                    assert forall|k: int| 0 <= k < subjects@.len() implies views_of(subs@)[k]
                        == views_of(subjects@)[k] by {
                        lemma_views_of_index(subs@, k);
                        lemma_views_of_index(subjects@, k);
                    }
                    assert(views_of(subs@) =~= views_of(subjects@));
                }
                Judgement::Operator { predicate: predicate.clone(), subjects: subs }
            },
        }
    }
}

/// The mathematical shape of a `Judgement`: symbols are sequences of
/// characters, so that two terms are equal exactly when they are spelled the
/// same way.
#[verifier::ext_equal]
pub ghost enum JudgementView {
    Operator { predicate: Seq<char>, subjects: Seq<JudgementView> },
    Variable { name: Seq<char> },
}

/// The view of a sequence of terms, in order.
pub open spec fn views_of(s: Seq<Judgement>) -> Seq<JudgementView>
    decreases s,
{
    if s.len() == 0 {
        Seq::empty()
    } else {
        views_of(s.drop_last()).push(s.last().view())
    }
}

impl View for Judgement {
    type V = JudgementView;

    open spec fn view(&self) -> JudgementView
        decreases self,
    {
        match self {
            Judgement::Variable(name) => JudgementView::Variable { name: name@ },
            Judgement::Operator { predicate, subjects } => JudgementView::Operator {
                predicate: predicate@,
                subjects: views_of(subjects@),
            },
        }
    }
}

pub broadcast proof fn lemma_views_of_index(s: Seq<Judgement>, i: int)
    requires
        0 <= i < s.len(),
    ensures
        views_of(s).len() == s.len(),
        #[trigger] views_of(s)[i] == s[i]@,
    decreases s,
{
    lemma_views_of_len(s);
    lemma_views_of_len(s.drop_last());
    assert(views_of(s) == views_of(s.drop_last()).push(s.last()@));
    if i < s.len() - 1 {
        lemma_views_of_index(s.drop_last(), i);
        assert(s.drop_last()[i] == s[i]);
    } else {
        assert(views_of(s)[i] == s.last()@);
    }
}

pub proof fn lemma_views_of_len(s: Seq<Judgement>)
    ensures
        views_of(s).len() == s.len(),
    decreases s,
{
    if s.len() > 0 {
        lemma_views_of_len(s.drop_last());
        assert(views_of(s) == views_of(s.drop_last()).push(s.last()@));
    }
}

impl Judgement {
    /// Build an operator term from a predicate symbol and its subjects.
    pub fn operator(predicate: &str, subjects: Vec<Judgement>) -> (r: Self)
        ensures
            r@ == (JudgementView::Operator { predicate: predicate@, subjects: views_of(subjects@) }),
    {
        Self::Operator { predicate: predicate.to_owned(), subjects }
    }

    /// Build a variable term from its name.
    pub fn variable(name: &str) -> (r: Self)
        ensures
            r@ == (JudgementView::Variable { name: name@ }),
    {
        Self::Variable(name.to_owned())
    }
}

/// The set of variable names occurring in a term.
pub open spec fn term_vars(t: JudgementView) -> Set<Seq<char>>
    decreases t,
{
    match t {
        JudgementView::Variable { name } => Set::empty().insert(name),
        JudgementView::Operator { predicate, subjects } => terms_vars(subjects),
    }
}

/// The set of variable names occurring in a sequence of terms.
pub open spec fn terms_vars(ts: Seq<JudgementView>) -> Set<Seq<char>>
    decreases ts,
{
    if ts.len() == 0 {
        Set::empty()
    } else {
        terms_vars(ts.drop_last()).union(term_vars(ts.last()))
    }
}

pub proof fn lemma_term_vars_finite(t: JudgementView)
    ensures
        term_vars(t).finite(),
    decreases t,
{
    match t {
        JudgementView::Variable { name } => {},
        JudgementView::Operator { predicate, subjects } => {
            lemma_terms_vars_finite(subjects);
        },
    }
}

pub proof fn lemma_terms_vars_finite(ts: Seq<JudgementView>)
    ensures
        terms_vars(ts).finite(),
    decreases ts,
{
    if ts.len() > 0 {
        lemma_terms_vars_finite(ts.drop_last());
        lemma_term_vars_finite(ts.last());
    }
}

/// A variable occurs in a sequence of terms exactly when it occurs in one of them.
pub proof fn lemma_terms_vars_index(ts: Seq<JudgementView>, v: Seq<char>)
    ensures
        terms_vars(ts).contains(v) <==> exists|i: int|
            0 <= i < ts.len() && term_vars(#[trigger] ts[i]).contains(v),
    decreases ts,
{
    if ts.len() > 0 {
        lemma_terms_vars_index(ts.drop_last(), v);
        if terms_vars(ts).contains(v) {
            if term_vars(ts.last()).contains(v) {
                assert(term_vars(ts[ts.len() - 1]).contains(v));
            } else {
                let i = choose|i: int|
                    0 <= i < ts.drop_last().len() && term_vars(#[trigger] ts.drop_last()[i]).contains(v);
                assert(term_vars(ts[i]).contains(v));
            }
        }
        if exists|i: int| 0 <= i < ts.len() && term_vars(#[trigger] ts[i]).contains(v) {
            let i = choose|i: int| 0 <= i < ts.len() && term_vars(#[trigger] ts[i]).contains(v);
            if i < ts.len() - 1 {
                assert(ts.drop_last()[i] == ts[i]);
            }
        }
    }
}

/// The set of names spelled by a vector of symbols.
pub open spec fn names_of(v: Seq<String>) -> Set<Seq<char>> {
    v.map_values(|s: String| s@).to_set()
}

/// Whether a vector of symbols holds the given name.
pub fn contains_name(v: &Vec<String>, name: &String) -> (r: bool)
    ensures
        r == names_of(v@).contains(name@),
{
    let mut i: usize = 0;
    let ghost mapped = v@.map_values(|s: String| s@);
    proof {
        assert(mapped.len() == v@.len());
    }
    while i < v.len()
        invariant
            i <= v.len(),
            mapped == v@.map_values(|s: String| s@),
            forall|k: int| 0 <= k < i ==> mapped[k] != name@,
        decreases v.len() - i,
    {
        if v[i].eq(name) {
            proof {
                assert(mapped[i as int] == name@);
                assert(mapped.contains(name@));
            }
            return true;
        }
        proof {
            assert(mapped[i as int] == v@[i as int]@);
        }
        i = i + 1;
    }
    proof {
        if mapped.contains(name@) {
            let k = choose|k: int| 0 <= k < mapped.len() && mapped[k] == name@;
            assert(false);
        }
    }
    false
}

impl Judgement {
    /// Collect the names of all variables in the term, without repetition.
    pub fn get_variables(&self) -> (r: Vec<String>)
        ensures
            names_of(r@) == term_vars(self@),
            forall|a: int, b: int| 0 <= a < b < r@.len() ==> (#[trigger] r@[a])@ != (#[trigger] r@[b])@,
        decreases self,
    {
        match self {
            Judgement::Variable(name) => {
                let mut r: Vec<String> = Vec::new();
                r.push(name.clone());
                proof {
                    let mapped = r@.map_values(|s: String| s@);
                    assert(mapped =~= seq![name@]);
                    assert forall|x: Seq<char>|
                        names_of(r@).contains(x) <==> term_vars(self@).contains(x) by {
                        if names_of(r@).contains(x) {
                            let k = choose|k: int| 0 <= k < mapped.len() && mapped[k] == x;
                            assert(x == name@);
                        }
                        if x == name@ {
                            assert(mapped[0] == name@);
                            assert(mapped.contains(name@));
                        }
                    }
                    assert(names_of(r@) =~= term_vars(self@));
                }
                r
            },
            Judgement::Operator { predicate, subjects } => {
                let mut r: Vec<String> = Vec::new();
                let mut i: usize = 0;
                proof {
                    assert(names_of(r@) =~= terms_vars(views_of(subjects@).take(0)));
                }
                while i < subjects.len()
                    invariant
                        i <= subjects.len(),
                        *self == (Judgement::Operator {
                            predicate: *predicate,
                            subjects: *subjects,
                        }),
                        names_of(r@) == terms_vars(views_of(subjects@).take(i as int)),
                        forall|a: int, b: int|
                            0 <= a < b < r@.len() ==> (#[trigger] r@[a])@ != (#[trigger] r@[b])@,
                    decreases subjects.len() - i,
                {
                    proof {
                        let j = *self;
                        assert(decreases_to!(j => j->Operator_subjects));
                        assert(decreases_to!(*subjects => subjects@));
                        assert(decreases_to!(subjects@ => subjects@[i as int]));
                    }
                    let mut child = subjects[i].get_variables();
                    let ghost r_before = r@;
                    let mut k: usize = 0;
                    while k < child.len()
                        invariant
                            k <= child.len(),
                            names_of(r@) == names_of(r_before).union(names_of(child@.take(k as int))),
                            forall|a: int, b: int|
                                0 <= a < b < r@.len() ==> (#[trigger] r@[a])@ != (#[trigger] r@[b])@,
                        decreases child.len() - k,
                    {
                        let ghost r_mid = r@;
                        let present = contains_name(&r, &child[k]);
                        let ghost ck = child@[k as int]@;
                        if !present {
                            r.push(child[k].clone());
                        }
                        proof {
                            if !present {
                                assert(r@ == r_mid.push(child@[k as int]));
                                assert(r@.map_values(|s: String| s@) =~= r_mid.map_values(
                                    |s: String| s@,
                                ).push(ck));
                                lemma_map_push_to_set(r_mid, child@[k as int]);
                                assert forall|a: int| 0 <= a < r_mid.len() implies (
                                #[trigger] r_mid[a])@ != ck by {
                                    if r_mid[a]@ == ck {
                                        let mapped = r_mid.map_values(|s: String| s@);
                                        assert(mapped[a] == ck);
                                        assert(mapped.contains(ck));
                                    }
                                }
                            }
                            assert(child@.take(k + 1int).drop_last() =~= child@.take(k as int));
                            assert(child@.take(k + 1int).last() == child@[k as int]);
                            lemma_names_of_unfold(child@.take(k + 1int));
                            assert(names_of(r@) =~= names_of(r_before).union(
                                names_of(child@.take(k + 1int)),
                            ));
                        }
                        k = k + 1;
                    }
                    proof {
                        lemma_views_of_len(subjects@);
                        lemma_views_of_index(subjects@, i as int);
                        assert(child@.take(child@.len() as int) =~= child@);
                        assert(views_of(subjects@).take(i + 1int).drop_last() =~= views_of(
                            subjects@,
                        ).take(i as int));
                        assert(views_of(subjects@).take(i + 1int).last() == subjects@[i as int]@);
                        assert(names_of(r@) =~= terms_vars(views_of(subjects@).take(i + 1int)));
                    }
                    i = i + 1;
                }
                proof {
                    lemma_views_of_len(subjects@);
                    assert(views_of(subjects@).take(subjects@.len() as int) =~= views_of(
                        subjects@,
                    ));
                }
                r
            },
        }
    }
}

/// `names_of` of a non-empty sequence splits into the last name and the rest.
proof fn lemma_names_of_unfold(v: Seq<String>)
    requires
        v.len() > 0,
    ensures
        names_of(v) == names_of(v.drop_last()).insert(v.last()@),
{
    assert(v =~= v.drop_last().push(v.last()));
    lemma_map_push_to_set(v.drop_last(), v.last());
}

/// Pushing a symbol adds its name to the set of names.
proof fn lemma_map_push_to_set(v: Seq<String>, s: String)
    ensures
        v.push(s).map_values(|t: String| t@).to_set() == v.map_values(|t: String| t@).to_set().insert(s@),
{
    let m1 = v.map_values(|t: String| t@);
    let m2 = v.push(s).map_values(|t: String| t@);
    assert(m2 =~= m1.push(s@));
    assert forall|x: Seq<char>| m2.to_set().contains(x) <==> m1.to_set().contains(x) || x == s@ by {
        if m2.to_set().contains(x) {
            let k = choose|k: int| 0 <= k < m2.len() && m2[k] == x;
            if k < m1.len() {
                assert(m1[k] == x);
                assert(m1.to_set().contains(x));
            }
        }
        if m1.to_set().contains(x) {
            let k = choose|k: int| 0 <= k < m1.len() && m1[k] == x;
            assert(m2[k] == x);
            assert(m2.to_set().contains(x));
        }
        if x == s@ {
            assert(m2[m1.len() as int] == x);
            assert(m2.to_set().contains(x));
        }
    }
    assert(m2.to_set() =~= m1.to_set().insert(s@));
}

impl PartialEq for Judgement {
    /// Structural equality: equal exactly when the views are equal.
    fn eq(&self, other: &Self) -> (r: bool)
        ensures
            r == (self@ == other@),
        decreases self,
    {
        match (self, other) {
            (Judgement::Variable(a), Judgement::Variable(b)) => a.eq(b),
            (
                Judgement::Operator { predicate: p1, subjects: s1 },
                Judgement::Operator { predicate: p2, subjects: s2 },
            ) => {
                proof {
                    lemma_views_of_len(s1@);
                    lemma_views_of_len(s2@);
                }
                if !p1.eq(p2) {
                    return false;
                }
                if s1.len() != s2.len() {
                    return false;
                }
                let mut i: usize = 0;
                while i < s1.len()
                    invariant
                        i <= s1.len(),
                        s1@.len() == s2@.len(),
                        *self == (Judgement::Operator { predicate: *p1, subjects: *s1 }),
                        *other == (Judgement::Operator { predicate: *p2, subjects: *s2 }),
                        forall|k: int| 0 <= k < i ==> views_of(s1@)[k] == views_of(s2@)[k],
                    decreases s1.len() - i,
                {
                    proof {
                        let j = *self;
                        assert(decreases_to!(j => j->Operator_subjects));
                        assert(decreases_to!(*s1 => s1@));
                        assert(decreases_to!(s1@ => s1@[i as int]));
                        lemma_views_of_index(s1@, i as int);
                        lemma_views_of_index(s2@, i as int);
                    }
                    if !s1[i].eq(&s2[i]) {
                        return false;
                    }
                    i = i + 1;
                }
                proof {
                    lemma_views_of_len(s1@);
                    lemma_views_of_len(s2@);
                    assert(views_of(s1@) =~= views_of(s2@));
                }
                true
            },
            _ => false,
        }
    }
}

impl vstd::std_specs::cmp::PartialEqSpecImpl for Judgement {
    open spec fn obeys_eq_spec() -> bool {
        true
    }

    open spec fn eq_spec(&self, other: &Self) -> bool {
        self@ == other@
    }
}

/// A caller-supplied renaming policy: `rename` maps one variable name to a new
/// one and may update its own state; the two spec functions say, over the
/// state's view, which name comes back and how the state moves.
pub trait Renamer: View + Sized {
    /// The name `rename` returns in the given state.
    spec fn renamed(st: Self::V, name: Seq<char>) -> Seq<char>;

    /// The state after one call of `rename`.
    spec fn advanced(st: Self::V, name: Seq<char>) -> Self::V;

    fn rename(&mut self, name: &String) -> (r: String)
        ensures
            r@ == Self::renamed(old(self)@, name@),
            final(self)@ == Self::advanced(old(self)@, name@),
    ;
}

/// One term renamed under a threaded renamer state: the renamed term and the
/// state left behind. Subjects are visited left to right.
pub open spec fn rename_term<R: Renamer>(t: JudgementView, st: R::V) -> (JudgementView, R::V)
    decreases t,
{
    match t {
        JudgementView::Variable { name } => (
            JudgementView::Variable { name: R::renamed(st, name) },
            R::advanced(st, name),
        ),
        JudgementView::Operator { predicate, subjects } => {
            let (subs, st2) = rename_terms::<R>(subjects, st);
            (JudgementView::Operator { predicate, subjects: subs }, st2)
        },
    }
}

/// A sequence of terms renamed in order under a threaded renamer state.
pub open spec fn rename_terms<R: Renamer>(ts: Seq<JudgementView>, st: R::V) -> (
    Seq<JudgementView>,
    R::V,
)
    decreases ts,
{
    if ts.len() == 0 {
        (Seq::empty(), st)
    } else {
        let (first, st2) = rename_term::<R>(ts.first(), st);
        let (rest, st3) = rename_terms::<R>(ts.drop_first(), st2);
        (seq![first] + rest, st3)
    }
}

/// Renaming keeps the number of terms.
pub proof fn lemma_rename_terms_len<R: Renamer>(ts: Seq<JudgementView>, st: R::V)
    ensures
        rename_terms::<R>(ts, st).0.len() == ts.len(),
    decreases ts,
{
    if ts.len() > 0 {
        let (first, st2) = rename_term::<R>(ts.first(), st);
        lemma_rename_terms_len::<R>(ts.drop_first(), st2);
    }
}

/// Renaming a concatenation renames the two halves in order.
pub proof fn lemma_rename_terms_append<R: Renamer>(
    a: Seq<JudgementView>,
    b: Seq<JudgementView>,
    st: R::V,
)
    ensures
        rename_terms::<R>(a + b, st) == ({
            let (ra, st1) = rename_terms::<R>(a, st);
            let (rb, st2) = rename_terms::<R>(b, st1);
            (ra + rb, st2)
        }),
    decreases a,
{
    let (ra, st1) = rename_terms::<R>(a, st);
    let (rb, st2) = rename_terms::<R>(b, st1);
    if a.len() == 0 {
        assert(a + b =~= b);
        assert(ra =~= Seq::<JudgementView>::empty());
        assert(ra + rb =~= rb);
    } else {
        let (first, stf) = rename_term::<R>(a.first(), st);
        assert((a + b).first() == a.first());
        assert((a + b).drop_first() =~= a.drop_first() + b);
        lemma_rename_terms_append::<R>(a.drop_first(), b, stf);
        let (rra, st1x) = rename_terms::<R>(a.drop_first(), stf);
        assert(ra =~= seq![first] + rra);
        let (rrb, _st) = rename_terms::<R>(b, st1x);
        assert(seq![first] + (rra + rrb) =~= (seq![first] + rra) + rrb);
    }
}

impl Judgement {
    /// Rebuild the term with every variable renamed by the given policy,
    /// threading the policy's state through the traversal in order.
    pub fn rename_variables<R: Renamer>(&self, state: &mut R) -> (r: Judgement)
        ensures
            r@ == rename_term::<R>(self@, old(state)@).0,
            final(state)@ == rename_term::<R>(self@, old(state)@).1,
        decreases self,
    {
        match self {
            Judgement::Variable(name) => Judgement::Variable(state.rename(name)),
            Judgement::Operator { predicate, subjects } => {
                let ghost st0 = state@;
                let mut subs: Vec<Judgement> = Vec::new();
                let mut i: usize = 0;
                proof {
                    assert(views_of(subjects@).take(0) =~= Seq::empty());
                    assert(views_of(subs@) =~= Seq::empty());
                }
                while i < subjects.len()
                    invariant
                        i <= subjects.len(),
                        *self == (Judgement::Operator {
                            predicate: *predicate,
                            subjects: *subjects,
                        }),
                        views_of(subs@) == rename_terms::<R>(
                            views_of(subjects@).take(i as int),
                            st0,
                        ).0,
                        state@ == rename_terms::<R>(views_of(subjects@).take(i as int), st0).1,
                    decreases subjects.len() - i,
                {
                    proof {
                        let j = *self;
                        assert(decreases_to!(j => j->Operator_subjects));
                        assert(decreases_to!(*subjects => subjects@));
                        assert(decreases_to!(subjects@ => subjects@[i as int]));
                        lemma_views_of_len(subjects@);
                        lemma_views_of_index(subjects@, i as int);
                    }
                    let ghost st_i = state@;
                    let ghost subs_before = subs@;
                    let child = subjects[i].rename_variables(state);
                    subs.push(child);
                    proof {
                        reveal_with_fuel(rename_terms, 3);
                        let pre = views_of(subjects@).take(i as int);
                        let one = seq![subjects@[i as int]@];
                        assert(views_of(subjects@).take(i + 1int) =~= pre + one);
                        lemma_rename_terms_append::<R>(pre, one, st0);
                        assert(one.first() == subjects@[i as int]@);
                        assert(one.drop_first() =~= Seq::<JudgementView>::empty());
                        let (rone, st_next) = rename_terms::<R>(one, st_i);
                        assert(rone =~= seq![rename_term::<R>(subjects@[i as int]@, st_i).0]);
                        assert(subs@.drop_last() =~= subs_before);
                        assert(subs@.last() == child);
                        assert(views_of(subs@) =~= views_of(subs_before).push(child@));
                        assert(rename_terms::<R>(pre, st0).0 + rone =~= rename_terms::<R>(
                            pre,
                            st0,
                        ).0.push(child@));
                    }
                    i = i + 1;
                }
                proof {
                    lemma_views_of_len(subjects@);
                    assert(views_of(subjects@).take(subjects@.len() as int) =~= views_of(
                        subjects@,
                    ));
                }
                Judgement::Operator { predicate: predicate.clone(), subjects: subs }
            },
        }
    }
}

/// The textual form of a term: a variable is its name; an operator is its
/// predicate followed by its subjects in parentheses, comma-and-space
/// separated, with the parentheses kept even when there are no subjects.
pub open spec fn text_of(t: JudgementView) -> Seq<char>
    decreases t,
{
    match t {
        JudgementView::Variable { name } => name,
        JudgementView::Operator { predicate, subjects } => predicate + seq!['('] + texts_of(
            subjects,
        ) + seq![')'],
    }
}

/// The textual forms of a sequence of terms, comma-and-space separated.
pub open spec fn texts_of(ts: Seq<JudgementView>) -> Seq<char>
    decreases ts,
{
    if ts.len() == 0 {
        Seq::empty()
    } else if ts.len() == 1 {
        text_of(ts.first())
    } else {
        text_of(ts.first()) + seq![',', ' '] + texts_of(ts.drop_first())
    }
}

/// The textual forms of a sequence of terms, each followed by a separator.
pub open spec fn texts_of_sep(ts: Seq<JudgementView>) -> Seq<char>
    decreases ts,
{
    if ts.len() == 0 {
        Seq::empty()
    } else {
        text_of(ts.first()) + seq![',', ' '] + texts_of_sep(ts.drop_first())
    }
}

/// A non-empty separated list is all but the last term, each with a
/// separator, then the last term bare.
pub proof fn lemma_texts_of_split(ts: Seq<JudgementView>)
    requires
        ts.len() >= 1,
    ensures
        texts_of(ts) == texts_of_sep(ts.drop_last()) + text_of(ts.last()),
    decreases ts,
{
    if ts.len() == 1 {
        assert(ts.drop_last() =~= Seq::<JudgementView>::empty());
        assert(texts_of_sep(ts.drop_last()) + text_of(ts.last()) =~= text_of(ts.first()));
    } else {
        lemma_texts_of_split(ts.drop_first());
        assert(ts.drop_first().drop_last() =~= ts.drop_last().drop_first());
        assert(ts.drop_first().last() == ts.last());
        assert(ts.drop_last().first() == ts.first());
        assert(ts.drop_last().len() >= 1);
        assert(texts_of(ts) =~= texts_of_sep(ts.drop_last()) + text_of(ts.last()));
    }
}

/// Appending one more term extends the separated list by its text and a
/// separator.
pub proof fn lemma_texts_of_sep_push(ts: Seq<JudgementView>, t: JudgementView)
    ensures
        texts_of_sep(ts.push(t)) == texts_of_sep(ts) + text_of(t) + seq![',', ' '],
    decreases ts,
{
    if ts.len() == 0 {
        assert(ts.push(t).first() == t);
        assert(ts.push(t).drop_first() =~= Seq::<JudgementView>::empty());
        assert(texts_of_sep(Seq::<JudgementView>::empty()) == Seq::<char>::empty());
        assert(texts_of_sep(ts.push(t)) == text_of(t) + seq![',', ' '] + Seq::<char>::empty());
        assert(texts_of_sep(ts.push(t)) =~= texts_of_sep(ts) + text_of(t) + seq![',', ' ']);
    } else {
        assert(ts.push(t).first() == ts.first());
        assert(ts.push(t).drop_first() =~= ts.drop_first().push(t));
        lemma_texts_of_sep_push(ts.drop_first(), t);
        let a = text_of(ts.first());
        let sep = seq![',', ' '];
        let rest = texts_of_sep(ts.drop_first());
        assert(texts_of_sep(ts.push(t)) == a + sep + texts_of_sep(ts.drop_first().push(t)));
        assert(texts_of_sep(ts.push(t)) == a + sep + (rest + text_of(t) + sep));
        assert(texts_of_sep(ts) == a + sep + rest);
        assert(a + sep + (rest + text_of(t) + sep) =~= (a + sep + rest) + text_of(t) + sep);
    }
}

impl Judgement {
    /// Write the term in its textual form.
    pub fn to_text(&self) -> (r: String)
        ensures
            r@ == text_of(self@),
        decreases self,
    {
        match self {
            Judgement::Variable(name) => name.clone(),
            Judgement::Operator { predicate, subjects } => {
                proof {
                    reveal_strlit("(");
                    reveal_strlit(")");
                    reveal_strlit(", ");
                }
                let mut s = predicate.clone();
                s.append("(");
                let ghost views = views_of(subjects@);
                proof {
                    lemma_views_of_len(subjects@);
                    assert(views.take(0) =~= Seq::empty());
                    assert(s@ =~= predicate@ + seq!['('] + texts_of_sep(views.take(0)));
                }
                if subjects.len() > 0 {
                    let mut i: usize = 0;
                    while i < subjects.len() - 1
                        invariant
                            i < subjects@.len(),
                            views == views_of(subjects@),
                            views.len() == subjects@.len(),
                            *self == (Judgement::Operator {
                                predicate: *predicate,
                                subjects: *subjects,
                            }),
                            s@ == predicate@ + seq!['('] + texts_of_sep(views.take(i as int)),
                        decreases subjects.len() - i,
                    {
                        proof {
                            reveal_strlit(", ");
                            let j = *self;
                            assert(decreases_to!(j => j->Operator_subjects));
                            assert(decreases_to!(*subjects => subjects@));
                            assert(decreases_to!(subjects@ => subjects@[i as int]));
                            lemma_views_of_index(subjects@, i as int);
                        }
                        let child = subjects[i].to_text();
                        s.append(child.as_str());
                        s.append(", ");
                        proof {
                            lemma_texts_of_sep_push(views.take(i as int), views[i as int]);
                            assert(views.take(i + 1int) =~= views.take(i as int).push(
                                views[i as int],
                            ));
                            assert(s@ =~= predicate@ + seq!['('] + texts_of_sep(
                                views.take(i + 1int),
                            ));
                        }
                        i = i + 1;
                    }
                    proof {
                        let j = *self;
                        assert(decreases_to!(j => j->Operator_subjects));
                        assert(decreases_to!(*subjects => subjects@));
                        assert(decreases_to!(subjects@ => subjects@[i as int]));
                        lemma_views_of_index(subjects@, i as int);
                    }
                    let child = subjects[i].to_text();
                    s.append(child.as_str());
                    proof {
                        lemma_texts_of_split(views);
                        assert(views.take(subjects@.len() - 1) =~= views.drop_last());
                        assert(views.last() == views[i as int]);
                        assert(s@ =~= predicate@ + seq!['('] + texts_of(views));
                    }
                } else {
                    proof {
                        assert(texts_of(views) =~= Seq::<char>::empty());
                        assert(s@ =~= predicate@ + seq!['('] + texts_of(views));
                    }
                }
                s.append(")");
                proof {
                    assert(s@ =~= text_of(self@));
                }
                s
            },
        }
    }
}

/// A named inference rule: zero or more premises and a conclusion. A rule with
/// no premises is an axiom.
#[derive(Debug)]
pub struct Rule {
    pub(crate) name: String,
    pub(crate) premises: Vec<Judgement>,
    pub(crate) conclusion: Judgement,
}

/// The mathematical shape of a `Rule`.
#[verifier::ext_equal]
pub ghost struct RuleView {
    pub name: Seq<char>,
    pub premises: Seq<JudgementView>,
    pub conclusion: JudgementView,
}

impl View for Rule {
    type V = RuleView;

    closed spec fn view(&self) -> RuleView {
        RuleView {
            name: self.name@,
            premises: views_of(self.premises@),
            conclusion: self.conclusion@,
        }
    }
}

impl Clone for Rule {
    fn clone(&self) -> (r: Self)
        ensures
            r@ == self@,
    {
        let mut premises: Vec<Judgement> = Vec::new();
        let mut i: usize = 0;
        while i < self.premises.len()
            invariant
                i <= self.premises.len(),
                premises@.len() == i,
                forall|k: int| 0 <= k < i ==> premises@[k]@ == self.premises@[k]@,
            decreases self.premises.len() - i,
        {
            premises.push(self.premises[i].clone());
            i = i + 1;
        }
        proof {
            lemma_views_of_len(premises@);
            lemma_views_of_len(self.premises@);
            assert forall|k: int| 0 <= k < self.premises@.len() implies views_of(premises@)[k]
                == views_of(self.premises@)[k] by {
                lemma_views_of_index(premises@, k);
                lemma_views_of_index(self.premises@, k);
            }
            assert(views_of(premises@) =~= views_of(self.premises@));
        }
        Rule { name: self.name.clone(), premises, conclusion: self.conclusion.clone() }
    }
}

/// A rule renamed under a threaded renamer state: premises first, in order,
/// then the conclusion.
pub open spec fn rename_rule<R: Renamer>(rv: RuleView, st: R::V) -> (RuleView, R::V) {
    let (premises, st1) = rename_terms::<R>(rv.premises, st);
    let (conclusion, st2) = rename_term::<R>(rv.conclusion, st1);
    (RuleView { name: rv.name, premises, conclusion }, st2)
}

impl Rule {
    /// Build a rule from its label, premises and conclusion.
    pub fn new(name: &str, premises: Vec<Judgement>, conclusion: Judgement) -> (r: Self)
        ensures
            r@ == (RuleView {
                name: name@,
                premises: views_of(premises@),
                conclusion: conclusion@,
            }),
    {
        Self { name: name.to_owned(), premises, conclusion }
    }

    /// Build an axiom: a rule with no premises.
    pub fn taut(name: &str, judgement: Judgement) -> (r: Self)
        ensures
            r@ == (RuleView {
                name: name@,
                premises: Seq::empty(),
                conclusion: judgement@,
            }),
    {
        Self::new(name, Vec::new(), judgement)
    }

    /// Write the rule in its inline textual form: the premises in
    /// parentheses, an arrow, then the conclusion. This is the one-line shape
    /// a rule prints as; the premises-over-a-bar layout belongs to rendered
    /// derivations (`Derivation::to_string_tree`) and to the surface parser's
    /// input.
    pub fn to_text(&self) -> (r: String)
        ensures
            r@ == seq!['('] + texts_of(self@.premises) + seq![')', '-', '>'] + text_of(
                self@.conclusion,
            ),
    {
        proof {
            reveal_strlit("(");
            reveal_strlit(")->");
            reveal_strlit(", ");
        }
        let mut s = "(".to_owned();
        let ghost views = views_of(self.premises@);
        proof {
            lemma_views_of_len(self.premises@);
            assert(views.take(0) =~= Seq::empty());
            assert(s@ =~= seq!['('] + texts_of_sep(views.take(0)));
        }
        if self.premises.len() > 0 {
            let mut i: usize = 0;
            while i < self.premises.len() - 1
                invariant
                    i < self.premises@.len(),
                    views == views_of(self.premises@),
                    views.len() == self.premises@.len(),
                    s@ == seq!['('] + texts_of_sep(views.take(i as int)),
                decreases self.premises@.len() - i,
            {
                proof {
                    reveal_strlit(", ");
                    lemma_views_of_index(self.premises@, i as int);
                }
                let child = self.premises[i].to_text();
                s.append(child.as_str());
                s.append(", ");
                proof {
                    lemma_texts_of_sep_push(views.take(i as int), views[i as int]);
                    assert(views.take(i + 1int) =~= views.take(i as int).push(views[i as int]));
                    assert(s@ =~= seq!['('] + texts_of_sep(views.take(i + 1int)));
                }
                i = i + 1;
            }
            proof {
                lemma_views_of_index(self.premises@, i as int);
            }
            let child = self.premises[i].to_text();
            s.append(child.as_str());
            proof {
                lemma_texts_of_split(views);
                assert(views.take(self.premises@.len() - 1) =~= views.drop_last());
                assert(views.last() == views[i as int]);
                assert(s@ =~= seq!['('] + texts_of(views));
            }
        } else {
            proof {
                assert(texts_of(views) =~= Seq::<char>::empty());
                assert(s@ =~= seq!['('] + texts_of(views));
            }
        }
        s.append(")->");
        let conclusion = self.conclusion.to_text();
        s.append(conclusion.as_str());
        proof {
            assert(s@ =~= seq!['('] + texts_of(self@.premises) + seq![')', '-', '>'] + text_of(
                self@.conclusion,
            ));
        }
        s
    }

    /// Rebuild the rule with every variable in its premises and conclusion
    /// renamed by the given policy.
    pub fn rename_variables<R: Renamer>(&self, state: &mut R) -> (r: Self)
        ensures
            r@ == rename_rule::<R>(self@, old(state)@).0,
            final(state)@ == rename_rule::<R>(self@, old(state)@).1,
    {
        let ghost st0 = state@;
        let mut premises: Vec<Judgement> = Vec::new();
        let mut i: usize = 0;
        proof {
            assert(views_of(self.premises@).take(0) =~= Seq::empty());
            assert(views_of(premises@) =~= Seq::empty());
        }
        while i < self.premises.len()
            invariant
                i <= self.premises.len(),
                views_of(premises@) == rename_terms::<R>(
                    views_of(self.premises@).take(i as int),
                    st0,
                ).0,
                state@ == rename_terms::<R>(views_of(self.premises@).take(i as int), st0).1,
            decreases self.premises.len() - i,
        {
            proof {
                lemma_views_of_len(self.premises@);
                lemma_views_of_index(self.premises@, i as int);
            }
            let ghost st_i = state@;
            let ghost premises_before = premises@;
            let child = self.premises[i].rename_variables(state);
            premises.push(child);
            proof {
                reveal_with_fuel(rename_terms, 3);
                let pre = views_of(self.premises@).take(i as int);
                let one = seq![self.premises@[i as int]@];
                assert(views_of(self.premises@).take(i + 1int) =~= pre + one);
                lemma_rename_terms_append::<R>(pre, one, st0);
                assert(one.first() == self.premises@[i as int]@);
                assert(one.drop_first() =~= Seq::<JudgementView>::empty());
                let (rone, st_next) = rename_terms::<R>(one, st_i);
                assert(rone =~= seq![rename_term::<R>(self.premises@[i as int]@, st_i).0]);
                assert(premises@.drop_last() =~= premises_before);
                assert(premises@.last() == child);
                assert(views_of(premises@) =~= views_of(premises_before).push(child@));
                assert(rename_terms::<R>(pre, st0).0 + rone =~= rename_terms::<R>(
                    pre,
                    st0,
                ).0.push(child@));
            }
            i = i + 1;
        }
        proof {
            lemma_views_of_len(self.premises@);
            assert(views_of(self.premises@).take(self.premises@.len() as int) =~= views_of(
                self.premises@,
            ));
        }
        let conclusion = self.conclusion.rename_variables(state);
        Rule { name: self.name.clone(), premises, conclusion }
    }
}

/// Shorthand for `Judgement::variable`.
pub fn var(name: &str) -> (r: Judgement)
    ensures
        r@ == (JudgementView::Variable { name: name@ }),
{
    Judgement::variable(name)
}

/// Shorthand for a zero-subject operator.
pub fn constant(name: &str) -> (r: Judgement)
    ensures
        r@ == (JudgementView::Operator { predicate: name@, subjects: Seq::empty() }),
{
    Judgement::operator(name, Vec::new())
}

} // verus!
