//! Names and numbers: decimal spellings, and the `next_name` scheme that the
//! prover uses to rename rule variables until they avoid a forbidden set.
use vstd::prelude::*;

verus! {

/// The character for one decimal digit.
pub open spec fn digit_char(d: nat) -> char {
    if d == 0 {
        '0'
    } else if d == 1 {
        '1'
    } else if d == 2 {
        '2'
    } else if d == 3 {
        '3'
    } else if d == 4 {
        '4'
    } else if d == 5 {
        '5'
    } else if d == 6 {
        '6'
    } else if d == 7 {
        '7'
    } else if d == 8 {
        '8'
    } else {
        '9'
    }
}

/// The decimal spelling of a number, most significant digit first.
pub open spec fn dec_str(n: nat) -> Seq<char>
    decreases n,
{
    if n < 10 {
        seq![digit_char(n)]
    } else {
        dec_str(n / 10).push(digit_char(n % 10))
    }
}

/// The character of one digit value.
fn digit_of(d: u64) -> (r: String)
    requires
        d < 10,
    ensures
        r@ == seq![digit_char(d as nat)],
{
    proof {
        reveal_strlit("0");
        reveal_strlit("1");
        reveal_strlit("2");
        reveal_strlit("3");
        reveal_strlit("4");
        reveal_strlit("5");
        reveal_strlit("6");
        reveal_strlit("7");
        reveal_strlit("8");
        reveal_strlit("9");
    }
    let s: &str = if d == 0 {
        "0"
    } else if d == 1 {
        "1"
    } else if d == 2 {
        "2"
    } else if d == 3 {
        "3"
    } else if d == 4 {
        "4"
    } else if d == 5 {
        "5"
    } else if d == 6 {
        "6"
    } else if d == 7 {
        "7"
    } else if d == 8 {
        "8"
    } else {
        "9"
    };
    proof {
        assert(s@ =~= seq![digit_char(d as nat)]);
    }
    s.to_owned()
}

/// The decimal spelling of a number.
pub fn dec_of_u64(n: u64) -> (r: String)
    ensures
        r@ == dec_str(n as nat),
    decreases n,
{
    let last = digit_of(n % 10);
    if n < 10 {
        last
    } else {
        let mut s = dec_of_u64(n / 10);
        s.append(last.as_str());
        proof {
            assert(s@ =~= dec_str(n as nat));
        }
        s
    }
}

/// The decimal spelling of a count.
pub fn dec_of_usize(n: usize) -> (r: String)
    ensures
        r@ == dec_str(n as nat),
{
    dec_of_u64(n as u64)
}

/// The decimal spelling of a wide number.
pub fn dec_of_u128(n: u128) -> (r: String)
    ensures
        r@ == dec_str(n as nat),
    decreases n,
{
    let last = digit_of((n % 10) as u64);
    if n < 10 {
        last
    } else {
        let mut s = dec_of_u128(n / 10);
        s.append(last.as_str());
        proof {
            assert(s@ =~= dec_str(n as nat));
        }
        s
    }
}

/// Whether a character is a decimal digit.
pub open spec fn is_digit(c: char) -> bool {
    48 <= c as u32 && c as u32 <= 57
}

/// The value of a digit character.
pub open spec fn digit_val(c: char) -> nat {
    (c as u32 - 48) as nat
}

/// Whether every character is a decimal digit.
pub open spec fn all_digits(s: Seq<char>) -> bool {
    forall|i: int| 0 <= i < s.len() ==> is_digit(#[trigger] s[i])
}

/// The number a digit string spells, most significant digit first.
pub open spec fn parse_digits(s: Seq<char>) -> nat
    decreases s,
{
    if s.len() == 0 {
        0
    } else {
        parse_digits(s.drop_last()) * 10 + digit_val(s.last())
    }
}

/// How many characters stand before the first digit.
pub open spec fn base_len(s: Seq<char>) -> nat
    decreases s,
{
    if s.len() == 0 {
        0
    } else if is_digit(s.first()) {
        0
    } else {
        1 + base_len(s.drop_first())
    }
}

/// The trailing part of a name from its first digit on.
pub open spec fn suffix_of(s: Seq<char>) -> Seq<char> {
    s.subrange(base_len(s) as int, s.len() as int)
}

/// The name that follows a name: if the name ends in a digit suffix that
/// spells a number, the suffix counts up by one; otherwise a `1` is appended.
/// The suffix is read as an unsigned 64-bit number — a deliberate width
/// choice: a suffix beyond that range, or one whose successor would not fit,
/// is treated like any other unparsed suffix and gets a `1` appended, so the
/// step never overflows.
pub open spec fn next_name_spec(s: Seq<char>) -> Seq<char> {
    let b = base_len(s) as int;
    let suffix = suffix_of(s);
    if b < s.len() && all_digits(suffix) && parse_digits(suffix) + 1 <= u64::MAX {
        s.subrange(0, b) + dec_str((parse_digits(suffix) + 1) as nat)
    } else {
        s.push('1')
    }
}

proof fn lemma_base_len(s: Seq<char>)
    ensures
        base_len(s) <= s.len(),
        forall|i: int| 0 <= i < base_len(s) ==> !is_digit(#[trigger] s[i]),
        base_len(s) < s.len() ==> is_digit(s[base_len(s) as int]),
    decreases s,
{
    if s.len() > 0 && !is_digit(s.first()) {
        lemma_base_len(s.drop_first());
        assert forall|i: int| 0 <= i < base_len(s) implies !is_digit(#[trigger] s[i]) by {
            if i > 0 {
                assert(s.drop_first()[i - 1] == s[i]);
            }
        }
        if base_len(s) < s.len() {
            assert(s.drop_first()[base_len(s.drop_first()) as int] == s[base_len(s) as int]);
        }
    }
}

proof fn lemma_base_len_unique(s: Seq<char>, b: int)
    requires
        0 <= b <= s.len(),
        forall|i: int| 0 <= i < b ==> !is_digit(#[trigger] s[i]),
        b < s.len() ==> is_digit(s[b]),
    ensures
        b == base_len(s),
    decreases s,
{
    if s.len() == 0 {
    } else if is_digit(s.first()) {
        assert(b == 0) by {
            if b > 0 {
                assert(!is_digit(s[0]));
            }
        }
    } else {
        assert(b > 0) by {
            if b == 0 {
                assert(is_digit(s[0]));
            }
        }
        assert forall|i: int| 0 <= i < b - 1 implies !is_digit(#[trigger] s.drop_first()[i]) by {
            assert(s.drop_first()[i] == s[i + 1]);
        }
        if b - 1 < s.drop_first().len() {
            assert(s.drop_first()[b - 1] == s[b]);
        }
        lemma_base_len_unique(s.drop_first(), b - 1);
    }
}

proof fn lemma_dec_str_digits(n: nat)
    ensures
        dec_str(n).len() >= 1,
        all_digits(dec_str(n)),
        is_digit(dec_str(n)[0]),
    decreases n,
{
    assert(is_digit(digit_char(n % 10)));
    assert(is_digit(digit_char(n)));
    if n >= 10 {
        lemma_dec_str_digits(n / 10);
        assert forall|i: int| 0 <= i < dec_str(n).len() implies is_digit(
            #[trigger] dec_str(n)[i],
        ) by {
            if i < dec_str(n / 10).len() {
                assert(dec_str(n)[i] == dec_str(n / 10)[i]);
            } else {
                assert(dec_str(n)[i] == digit_char(n % 10));
            }
        }
        assert(dec_str(n)[0] == dec_str(n / 10)[0]);
    }
}

proof fn lemma_parse_dec(n: nat)
    ensures
        parse_digits(dec_str(n)) == n,
    decreases n,
{
    if n < 10 {
        assert(parse_digits(Seq::<char>::empty()) == 0);
        assert(dec_str(n).drop_last() =~= Seq::<char>::empty());
        assert(dec_str(n).last() == digit_char(n));
        assert(digit_val(digit_char(n)) == n);
    } else {
        lemma_parse_dec(n / 10);
        assert(dec_str(n).drop_last() =~= dec_str(n / 10));
        assert(digit_val(digit_char(n % 10)) == n % 10);
        assert(n / 10 * 10 + n % 10 == n) by {
            vstd::arithmetic::div_mod::lemma_fundamental_div_mod(n as int, 10);
        }
    }
}

/// The measure that `next_name` strictly increases: first the number its
/// digit suffix spells, then the length.
pub open spec fn suffix_val(s: Seq<char>) -> nat {
    if base_len(s) < s.len() && all_digits(suffix_of(s)) {
        parse_digits(suffix_of(s))
    } else {
        0
    }
}

/// The strict order in which names grow under `next_name`.
pub open spec fn name_lt(a: Seq<char>, b: Seq<char>) -> bool {
    suffix_val(a) < suffix_val(b) || (suffix_val(a) == suffix_val(b) && a.len() < b.len())
}

proof fn lemma_base_len_concat(a: Seq<char>, b: Seq<char>)
    ensures
        base_len(a + b) == if base_len(a) < a.len() {
            base_len(a) as int
        } else {
            a.len() + base_len(b) as int
        },
    decreases a,
{
    if a.len() == 0 {
        assert(a + b =~= b);
    } else {
        assert((a + b).first() == a.first());
        if !is_digit(a.first()) {
            assert((a + b).drop_first() =~= a.drop_first() + b);
            lemma_base_len_concat(a.drop_first(), b);
        }
    }
}

/// Each name is strictly below the name that follows it.
proof fn lemma_next_name_grows(s: Seq<char>)
    ensures
        name_lt(s, next_name_spec(s)),
{
    lemma_base_len(s);
    let b = base_len(s) as int;
    let suffix = suffix_of(s);
    if b < s.len() && all_digits(suffix) && parse_digits(suffix) + 1 <= u64::MAX {
        let v = parse_digits(suffix);
        let prefix = s.subrange(0, b);
        let r = prefix + dec_str((v + 1) as nat);
        lemma_dec_str_digits((v + 1) as nat);
        assert(base_len(prefix) == prefix.len()) by {
            lemma_base_len_unique(prefix, prefix.len() as int);
        }
        lemma_base_len_concat(prefix, dec_str((v + 1) as nat));
        assert(base_len(dec_str((v + 1) as nat)) == 0);
        assert(base_len(r) == b);
        assert(suffix_of(r) =~= dec_str((v + 1) as nat));
        lemma_parse_dec((v + 1) as nat);
        assert(suffix_val(r) == v + 1);
        assert(suffix_val(s) == v);
    } else {
        let r = s.push('1');
        assert(is_digit('1'));
        if b == s.len() {
            assert(base_len(r) == s.len()) by {
                assert forall|i: int| 0 <= i < s.len() implies !is_digit(#[trigger] r[i]) by {
                    assert(r[i] == s[i]);
                }
                lemma_base_len_unique(r, s.len() as int);
            }
            assert(suffix_of(r) =~= seq!['1']);
            assert(parse_digits(seq!['1']) == 1) by {
                assert(parse_digits(Seq::<char>::empty()) == 0);
                assert(seq!['1'].drop_last() =~= Seq::<char>::empty());
                assert(seq!['1'].last() == '1');
                assert(digit_val('1') == 1);
            }
            assert(all_digits(seq!['1']));
            assert(suffix_val(r) == 1);
            assert(suffix_val(s) == 0);
        } else {
            assert(base_len(r) == b) by {
                assert forall|i: int| 0 <= i < b implies !is_digit(#[trigger] r[i]) by {
                    assert(r[i] == s[i]);
                }
                assert(r[b] == s[b]);
                lemma_base_len_unique(r, b);
            }
            assert(suffix_of(r) =~= suffix.push('1'));
            if !all_digits(suffix) {
                let j = choose|j: int| 0 <= j < suffix.len() && !is_digit(#[trigger] suffix[j]);
                assert(suffix.push('1')[j] == suffix[j]);
                assert(!all_digits(suffix.push('1')));
                assert(suffix_val(r) == 0);
                assert(suffix_val(s) == 0);
                assert(r.len() > s.len());
            } else {
                let v = parse_digits(suffix);
                assert(v + 1 > u64::MAX);
                assert(all_digits(suffix.push('1'))) by {
                    assert forall|j: int| 0 <= j < suffix.push('1').len() implies is_digit(
                        #[trigger] suffix.push('1')[j],
                    ) by {
                        if j < suffix.len() {
                            assert(suffix.push('1')[j] == suffix[j]);
                        } else {
                            assert(suffix.push('1')[j] == '1');
                        }
                    }
                }
                assert(suffix.push('1').drop_last() =~= suffix);
                assert(parse_digits(suffix.push('1')) == v * 10 + 1);
                assert(v * 10 + 1 > v);
                assert(suffix_val(r) == v * 10 + 1);
                assert(suffix_val(s) == v);
            }
        }
    }
}

/// The name after `k` applications of `next_name`.
pub open spec fn iterate_next(s: Seq<char>, k: nat) -> Seq<char>
    decreases k,
{
    if k == 0 {
        s
    } else {
        next_name_spec(iterate_next(s, (k - 1) as nat))
    }
}

proof fn lemma_iterate_lt(s: Seq<char>, j: nat, k: nat)
    requires
        j < k,
    ensures
        name_lt(iterate_next(s, j), iterate_next(s, k)),
    decreases k,
{
    lemma_next_name_grows(iterate_next(s, (k - 1) as nat));
    if j < k - 1 {
        lemma_iterate_lt(s, j, (k - 1) as nat);
    }
}

/// The first `n` iterates of a name, as a set.
spec fn iterates_upto(s: Seq<char>, n: nat) -> Set<Seq<char>> {
    Set::new(|t: Seq<char>| exists|k: nat| k < n && iterate_next(s, k) == t)
}

proof fn lemma_iterates_card(s: Seq<char>, n: nat)
    ensures
        iterates_upto(s, n).finite(),
        iterates_upto(s, n).len() == n,
    decreases n,
{
    if n == 0 {
        assert(iterates_upto(s, 0) =~= Set::<Seq<char>>::empty());
    } else {
        let m = (n - 1) as nat;
        lemma_iterates_card(s, m);
        assert(iterates_upto(s, n) =~= iterates_upto(s, m).insert(iterate_next(s, m))) by {
            assert forall|t: Seq<char>|
                iterates_upto(s, n).contains(t) == iterates_upto(s, m).insert(
                    iterate_next(s, m),
                ).contains(t) by {
                if iterates_upto(s, n).contains(t) {
                    let k = choose|k: nat| k < n && iterate_next(s, k) == t;
                    if k < m {
                        assert(iterates_upto(s, m).contains(t));
                    }
                }
                if iterates_upto(s, m).contains(t) {
                    let k = choose|k: nat| k < m && iterate_next(s, k) == t;
                    assert(k < n && iterate_next(s, k) == t);
                }
                if t == iterate_next(s, m) {
                    assert(m < n && iterate_next(s, m) == t);
                }
            }
        }
        assert(!iterates_upto(s, m).contains(iterate_next(s, m))) by {
            if iterates_upto(s, m).contains(iterate_next(s, m)) {
                let k = choose|k: nat| k < m && iterate_next(s, k) == iterate_next(s, m);
                lemma_iterate_lt(s, k, m);
            }
        }
    }
}

/// Applied repeatedly to any name, `next_name` eventually leaves any fixed
/// finite forbidden set: within at most as many steps as the set has names.
pub proof fn lemma_next_name_escapes(s: Seq<char>, forbidden: Set<Seq<char>>)
    requires
        forbidden.finite(),
    ensures
        exists|k: nat| k <= forbidden.len() && !forbidden.contains(iterate_next(s, k)),
{
    if forall|k: nat| k <= forbidden.len() ==> forbidden.contains(#[trigger] iterate_next(s, k)) {
        let n = forbidden.len() + 1;
        lemma_iterates_card(s, n);
        assert(iterates_upto(s, n).subset_of(forbidden)) by {
            assert forall|t: Seq<char>| iterates_upto(s, n).contains(t) implies forbidden.contains(
                t,
            ) by {
                let k = choose|k: nat| k < n && iterate_next(s, k) == t;
                assert(forbidden.contains(iterate_next(s, k)));
            }
        }
        vstd::set_lib::lemma_len_subset(iterates_upto(s, n), forbidden);
        assert(false);
    }
}

/// Whether `k` is the first number of steps after which the name leaves the
/// forbidden set.
pub open spec fn escapes_at(s: Seq<char>, forbidden: Set<Seq<char>>, k: nat) -> bool {
    &&& !forbidden.contains(iterate_next(s, k))
    &&& forall|j: nat| j < k ==> forbidden.contains(#[trigger] iterate_next(s, j))
}

/// The number of `next_name` steps to the first name outside the set.
pub open spec fn fresh_steps(s: Seq<char>, forbidden: Set<Seq<char>>) -> nat {
    choose|k: nat| escapes_at(s, forbidden, k)
}

/// The first iterate of a name that lies outside the forbidden set.
pub open spec fn fresh_name(s: Seq<char>, forbidden: Set<Seq<char>>) -> Seq<char> {
    iterate_next(s, fresh_steps(s, forbidden))
}

proof fn lemma_escapes_at_exists(s: Seq<char>, forbidden: Set<Seq<char>>, k0: nat)
    requires
        !forbidden.contains(iterate_next(s, k0)),
    ensures
        exists|k: nat| escapes_at(s, forbidden, k),
    decreases k0,
{
    if forall|j: nat| j < k0 ==> forbidden.contains(#[trigger] iterate_next(s, j)) {
        assert(escapes_at(s, forbidden, k0));
    } else {
        let j = choose|j: nat| j < k0 && !forbidden.contains(#[trigger] iterate_next(s, j));
        lemma_escapes_at_exists(s, forbidden, j);
    }
}

/// The fresh name chosen against a finite forbidden set indeed lies outside
/// it: the fresh-naming discipline of the prover.
pub proof fn lemma_fresh_name_escapes(s: Seq<char>, forbidden: Set<Seq<char>>)
    requires
        forbidden.finite(),
    ensures
        !forbidden.contains(fresh_name(s, forbidden)),
{
    lemma_next_name_escapes(s, forbidden);
    let k0 = choose|k: nat| k <= forbidden.len() && !forbidden.contains(iterate_next(s, k));
    lemma_escapes_at_exists(s, forbidden, k0);
    let k = choose|k: nat| escapes_at(s, forbidden, k);
    assert(escapes_at(s, forbidden, fresh_steps(s, forbidden)));
}

proof fn lemma_escapes_at_unique(s: Seq<char>, forbidden: Set<Seq<char>>, k1: nat, k2: nat)
    requires
        escapes_at(s, forbidden, k1),
        escapes_at(s, forbidden, k2),
    ensures
        k1 == k2,
{
    if k1 < k2 {
        assert(forbidden.contains(iterate_next(s, k1)));
    }
    if k2 < k1 {
        assert(forbidden.contains(iterate_next(s, k2)));
    }
}

/// A renaming policy that keeps names out of a fixed forbidden set: each name
/// is stepped with `next_name` until it first leaves the set. The state is the
/// set and never changes.
pub struct FreshRenamer {
    forbidden: Vec<String>,
}

impl View for FreshRenamer {
    type V = Set<Seq<char>>;

    closed spec fn view(&self) -> Set<Seq<char>> {
        crate::names_of(self.forbidden@)
    }
}

impl FreshRenamer {
    /// A policy avoiding exactly the given names.
    pub fn new(forbidden: Vec<String>) -> (r: Self)
        ensures
            r@ == crate::names_of(forbidden@),
    {
        FreshRenamer { forbidden }
    }
}

impl crate::Renamer for FreshRenamer {
    open spec fn renamed(st: Set<Seq<char>>, name: Seq<char>) -> Seq<char> {
        fresh_name(name, st)
    }

    open spec fn advanced(st: Set<Seq<char>>, name: Seq<char>) -> Set<Seq<char>> {
        st
    }

    fn rename(&mut self, name: &String) -> (r: String) {
        let ghost f = self@;
        proof {
            vstd::seq_lib::seq_to_set_is_finite(self.forbidden@.map_values(|s: String| s@));
            lemma_next_name_escapes(name@, f);
        }
        let ghost bound = choose|k: nat| k <= f.len() && !f.contains(iterate_next(name@, k));
        let mut current = name.clone();
        let ghost mut steps: nat = 0;
        while crate::contains_name(&self.forbidden, &current)
            invariant
                f == self@,
                f.finite(),
                current@ == iterate_next(name@, steps),
                forall|j: nat| j < steps ==> f.contains(#[trigger] iterate_next(name@, j)),
                steps <= bound,
                bound <= f.len(),
                !f.contains(iterate_next(name@, bound)),
            decreases bound - steps,
        {
            current = next_name(current.as_str());
            proof {
                steps = steps + 1nat;
                assert(steps <= bound) by {
                    if steps > bound {
                        assert(f.contains(iterate_next(name@, bound)));
                    }
                }
            }
        }
        proof {
            assert(escapes_at(name@, f, steps));
            assert(exists|k: nat| escapes_at(name@, f, k));
            let k0 = fresh_steps(name@, f);
            assert(escapes_at(name@, f, k0));
            lemma_escapes_at_unique(name@, f, steps, k0);
        }
        current
    }
}

/// What a list of seen renamings maps a name to: the first entry for the name,
/// if there is one.
pub open spec fn assoc_lookup(st: Seq<(Seq<char>, Seq<char>)>, k: Seq<char>) -> Option<Seq<char>>
    decreases st,
{
    if st.len() == 0 {
        None
    } else if st.first().0 == k {
        Some(st.first().1)
    } else {
        assoc_lookup(st.drop_first(), k)
    }
}

proof fn lemma_assoc_found(st: Seq<(Seq<char>, Seq<char>)>, k: Seq<char>, i: int)
    requires
        0 <= i < st.len(),
        st[i].0 == k,
        forall|j: int| 0 <= j < i ==> (#[trigger] st[j]).0 != k,
    ensures
        assoc_lookup(st, k) == Some(st[i].1),
    decreases st,
{
    if i > 0 {
        assert(st[0].0 != k);
        assert forall|j: int| 0 <= j < i - 1 implies (#[trigger] st.drop_first()[j]).0 != k by {
            assert(st.drop_first()[j] == st[j + 1]);
        }
        assert(st.drop_first()[i - 1] == st[i]);
        lemma_assoc_found(st.drop_first(), k, i - 1);
    }
}

proof fn lemma_assoc_missing(st: Seq<(Seq<char>, Seq<char>)>, k: Seq<char>)
    requires
        forall|j: int| 0 <= j < st.len() ==> (#[trigger] st[j]).0 != k,
    ensures
        assoc_lookup(st, k) == None::<Seq<char>>,
    decreases st,
{
    if st.len() > 0 {
        assert(st[0].0 != k);
        assert forall|j: int| 0 <= j < st.drop_first().len() implies (
        #[trigger] st.drop_first()[j]).0 != k by {
            assert(st.drop_first()[j] == st[j + 1]);
        }
        lemma_assoc_missing(st.drop_first(), k);
    }
}

/// A renaming policy that maps variables, in first-met order, to the canonical
/// names `x1`, `x2`, and so on: the normalised form the prover uses to spot a
/// subgoal it has already failed.
pub struct CanonRenamer {
    seen: Vec<(String, String)>,
}

impl View for CanonRenamer {
    type V = Seq<(Seq<char>, Seq<char>)>;

    closed spec fn view(&self) -> Seq<(Seq<char>, Seq<char>)> {
        self.seen@.map_values(|p: (String, String)| (p.0@, p.1@))
    }
}

impl CanonRenamer {
    /// A policy that has seen nothing yet.
    pub fn new() -> (r: Self)
        ensures
            r@ == Seq::<(Seq<char>, Seq<char>)>::empty(),
    {
        let r = CanonRenamer { seen: Vec::new() };
        proof {
            assert(r@ =~= Seq::<(Seq<char>, Seq<char>)>::empty());
        }
        r
    }
}

/// The canonical name for the next unseen variable, counting from one.
pub open spec fn canon_name(count: nat) -> Seq<char> {
    seq!['x'] + dec_str(count)
}

impl crate::Renamer for CanonRenamer {
    open spec fn renamed(st: Seq<(Seq<char>, Seq<char>)>, name: Seq<char>) -> Seq<char> {
        match assoc_lookup(st, name) {
            Some(v) => v,
            None => canon_name(st.len() + 1),
        }
    }

    open spec fn advanced(st: Seq<(Seq<char>, Seq<char>)>, name: Seq<char>) -> Seq<
        (Seq<char>, Seq<char>),
    > {
        match assoc_lookup(st, name) {
            Some(v) => st,
            None => st.push((name, canon_name(st.len() + 1))),
        }
    }

    fn rename(&mut self, name: &String) -> (r: String) {
        let ghost st = self@;
        let mut i: usize = 0;
        while i < self.seen.len()
            invariant
                i <= self.seen@.len(),
                st == self@,
                st.len() == self.seen@.len(),
                forall|j: int| 0 <= j < st.len() ==> #[trigger] st[j] == (
                    self.seen@[j].0@,
                    self.seen@[j].1@,
                ),
                forall|j: int| 0 <= j < i ==> (#[trigger] st[j]).0 != name@,
            decreases self.seen@.len() - i,
        {
            if self.seen[i].0.eq(name) {
                proof {
                    lemma_assoc_found(st, name@, i as int);
                }
                return self.seen[i].1.clone();
            }
            i = i + 1;
        }
        proof {
            lemma_assoc_missing(st, name@);
        }
        let count: u128 = (self.seen.len() as u128) + 1;
        let mut fresh = "x".to_owned();
        fresh.append(dec_of_u128(count).as_str());
        proof {
            reveal_strlit("x");
            assert(fresh@ =~= canon_name(st.len() + 1));
        }
        self.seen.push((name.clone(), fresh.clone()));
        proof {
            assert(self@ =~= st.push((name@, fresh@)));
        }
        fresh
    }
}

/// Renaming a term against a finite forbidden set leaves the set untouched
/// and yields a term none of whose variables the set holds.
pub proof fn lemma_fresh_rename_term_vars(t: crate::JudgementView, st: Set<Seq<char>>)
    requires
        st.finite(),
    ensures
        crate::rename_term::<FreshRenamer>(t, st).1 == st,
        crate::term_vars(crate::rename_term::<FreshRenamer>(t, st).0).disjoint(st),
    decreases t,
{
    match t {
        crate::JudgementView::Variable { name } => {
            lemma_fresh_name_escapes(name, st);
        },
        crate::JudgementView::Operator { predicate, subjects } => {
            lemma_fresh_rename_terms_vars(subjects, st);
        },
    }
}

pub proof fn lemma_fresh_rename_terms_vars(ts: Seq<crate::JudgementView>, st: Set<Seq<char>>)
    requires
        st.finite(),
    ensures
        crate::rename_terms::<FreshRenamer>(ts, st).1 == st,
        crate::terms_vars(crate::rename_terms::<FreshRenamer>(ts, st).0).disjoint(st),
    decreases ts,
{
    let (res, stf) = crate::rename_terms::<FreshRenamer>(ts, st);
    if ts.len() == 0 {
        assert(crate::terms_vars(res) =~= Set::empty());
    } else {
        lemma_fresh_rename_term_vars(ts.first(), st);
        let (first, st2) = crate::rename_term::<FreshRenamer>(ts.first(), st);
        lemma_fresh_rename_terms_vars(ts.drop_first(), st2);
        let (rest, st3) = crate::rename_terms::<FreshRenamer>(ts.drop_first(), st2);
        assert(res == seq![first] + rest);
        assert forall|w: Seq<char>| crate::terms_vars(res).contains(w) implies !st.contains(w) by {
            crate::lemma_terms_vars_index(res, w);
            let i = choose|i: int|
                0 <= i < res.len() && crate::term_vars(#[trigger] res[i]).contains(w);
            if i == 0 {
                assert(res[0] == first);
            } else {
                assert(res[i] == rest[i - 1]);
                crate::lemma_terms_vars_index(rest, w);
                assert(crate::term_vars(rest[i - 1]).contains(w));
                assert(crate::terms_vars(rest).contains(w));
            }
        }
    }
}

/// Freshly renaming a rule keeps its name and leaves no variable of the
/// renamed rule inside the forbidden set.
pub proof fn lemma_fresh_rename_rule_vars(rv: crate::RuleView, st: Set<Seq<char>>)
    requires
        st.finite(),
    ensures
        crate::rename_rule::<FreshRenamer>(rv, st).0.name == rv.name,
        crate::rename_rule::<FreshRenamer>(rv, st).1 == st,
        crate::terms_vars(
            crate::rename_rule::<FreshRenamer>(rv, st).0.premises,
        ).disjoint(st),
        crate::term_vars(
            crate::rename_rule::<FreshRenamer>(rv, st).0.conclusion,
        ).disjoint(st),
{
    lemma_fresh_rename_terms_vars(rv.premises, st);
    let (premises, st1) = crate::rename_terms::<FreshRenamer>(rv.premises, st);
    lemma_fresh_rename_term_vars(rv.conclusion, st1);
}

/// Whether a character is a decimal digit.
fn char_is_digit(c: char) -> (r: bool)
    ensures
        r == is_digit(c),
{
    let u = c as u32;
    48 <= u && u <= 57
}

/// The successor of a name: a trailing decimal suffix counts up by one, any
/// other name has a `1` appended. The suffix is read as an unsigned 64-bit
/// number; see `next_name_spec` for what happens beyond that range.
pub fn next_name(name: &str) -> (r: String)
    ensures
        r@ == next_name_spec(name@),
{
    let ghost sv = name@;
    let n = name.unicode_len();
    let mut b: usize = 0;
    while b < n && !char_is_digit(name.get_char(b))
        invariant
            b <= n,
            n == sv.len(),
            sv == name@,
            forall|i: int| 0 <= i < b ==> !is_digit(#[trigger] sv[i]),
        decreases n - b,
    {
        b = b + 1;
    }
    proof {
        lemma_base_len_unique(sv, b as int);
    }
    let mut all_dig = true;
    let mut val: u64 = 0;
    let mut overflow = false;
    let mut i: usize = b;
    while i < n
        invariant
            b <= i <= n,
            n == sv.len(),
            sv == name@,
            b == base_len(sv),
            all_dig ==> forall|j: int| b <= j < i ==> is_digit(#[trigger] sv[j]),
            all_dig && !overflow ==> val == parse_digits(sv.subrange(b as int, i as int)),
            all_dig && overflow ==> parse_digits(sv.subrange(b as int, i as int)) > u64::MAX,
            !all_dig ==> exists|j: int| b <= j < sv.len() && !is_digit(#[trigger] sv[j]),
        decreases n - i,
    {
        let c = name.get_char(i);
        let ghost pre = sv.subrange(b as int, i as int);
        let ghost post = sv.subrange(b as int, i + 1int);
        proof {
            assert(post.drop_last() =~= pre);
            assert(post.last() == sv[i as int]);
        }
        if char_is_digit(c) {
            if all_dig {
                let d: u64 = (c as u32 as u64) - 48;
                proof {
                    assert(d == digit_val(sv[i as int]));
                }
                if !overflow {
                    if val <= (u64::MAX - d) / 10 {
                        proof {
                            assert(val * 10 + d <= u64::MAX) by (nonlinear_arith)
                                requires
                                    val <= (u64::MAX - d) / 10,
                                    d <= u64::MAX,
                            ;
                        }
                        val = val * 10 + d;
                    } else {
                        proof {
                            assert(val * 10 + d > u64::MAX) by (nonlinear_arith)
                                requires
                                    val > (u64::MAX - d) / 10,
                                    d < 10,
                            ;
                        }
                        overflow = true;
                    }
                } else {
                    proof {
                        let p = parse_digits(pre);
                        assert(parse_digits(post) == p * 10 + digit_val(sv[i as int]));
                        assert(p * 10 >= p) by (nonlinear_arith)
                            requires
                                p >= 0,
                        ;
                    }
                }
            }
        } else {
            all_dig = false;
        }
        i = i + 1;
    }
    if b < n && all_dig && !overflow && val < u64::MAX {
        proof {
            assert(sv.subrange(b as int, n as int) =~= suffix_of(sv));
            assert(all_digits(suffix_of(sv)));
        }
        let prefix = name.substring_char(0, b);
        let mut r = prefix.to_owned();
        let count = dec_of_u64(val + 1);
        r.append(count.as_str());
        proof {
            assert(r@ =~= next_name_spec(sv));
        }
        r
    } else {
        let mut r = name.to_owned();
        r.append("1");
        proof {
            reveal_strlit("1");
            assert(r@ =~= sv.push('1'));
            if b < n && all_dig {
                assert(sv.subrange(b as int, n as int) =~= suffix_of(sv));
                if !overflow {
                    assert(parse_digits(suffix_of(sv)) == val);
                }
                assert(parse_digits(suffix_of(sv)) + 1 > u64::MAX);
            }
            if !all_dig {
                let j = choose|j: int| b <= j < sv.len() && !is_digit(#[trigger] sv[j]);
                assert(suffix_of(sv)[j - b] == sv[j]);
                assert(!all_digits(suffix_of(sv)));
            }
            assert(r@ =~= next_name_spec(sv));
        }
        r
    }
}

} // verus!
