//! Birth/survival rules for the automaton: a fixed-arity variant used for
//! the named presets, a dynamic variant built from runtime lists, and a
//! parser for the textual "B<digits>S<digits>" notation.

use vstd::prelude::*;

verus! {

/// The capability shared by every rule value: two sequences of neighbor-count
/// thresholds. A dead cell with `k` live Moore neighbors becomes alive next
/// generation iff `k` is a birth threshold; an alive cell stays alive iff `k`
/// is a survival threshold.
pub trait IsRules: Sized {
    /// The birth thresholds, as a mathematical sequence.
    spec fn spec_birth(&self) -> Seq<u8>;

    /// The survival thresholds, as a mathematical sequence.
    spec fn spec_survive(&self) -> Seq<u8>;

    /// The birth thresholds, as a freshly allocated list.
    fn get_birth(&self) -> (r: Vec<u8>)
        ensures
            r@ == self.spec_birth(),
    ;

    /// The survival thresholds, as a freshly allocated list.
    fn get_surive(&self) -> (r: Vec<u8>)
        ensures
            r@ == self.spec_survive(),
    ;
}

/// A rule whose threshold counts are fixed at compile time; the named presets
/// are values of this type.
#[derive(Debug, Clone)]
pub struct ConstRules<const B: usize, const S: usize> {
    birth: [u8; B],
    survive: [u8; S],
}

impl<const B: usize, const S: usize> ConstRules<B, S> {
    pub fn new(birth: [u8; B], survive: [u8; S]) -> (r: Self)
        ensures
            r.spec_birth() == birth@,
            r.spec_survive() == survive@,
    {
        ConstRules { birth, survive }
    }
}

impl<const B: usize, const S: usize> IsRules for ConstRules<B, S> {
    closed spec fn spec_birth(&self) -> Seq<u8> {
        self.birth@
    }

    closed spec fn spec_survive(&self) -> Seq<u8> {
        self.survive@
    }

    fn get_birth(&self) -> (r: Vec<u8>) {
        array_to_vec(&self.birth)
    }

    fn get_surive(&self) -> (r: Vec<u8>) {
        array_to_vec(&self.survive)
    }
}

/// The Seeds preset: birth on 2 live neighbors, nothing survives.
pub fn seeds() -> (r: ConstRules<1, 0>)
    ensures
        r.spec_birth() == seq![2u8],
        r.spec_survive() == Seq::<u8>::empty(),
{
    let r = ConstRules::new([2], []);
    proof {
        assert(r.spec_birth() =~= seq![2u8]);
        assert(r.spec_survive() =~= Seq::<u8>::empty());
    }
    r
}

/// Conway's Life preset: birth on 3 live neighbors, survival on 2 or 3.
pub fn life() -> (r: ConstRules<1, 2>)
    ensures
        r.spec_birth() == seq![3u8],
        r.spec_survive() == seq![2u8, 3u8],
{
    let r = ConstRules::new([3], [2, 3]);
    proof {
        assert(r.spec_birth() =~= seq![3u8]);
        assert(r.spec_survive() =~= seq![2u8, 3u8]);
    }
    r
}

/// The Maze preset: birth on 3, survival on 1 through 5.
pub fn maze() -> (r: ConstRules<1, 5>)
    ensures
        r.spec_birth() == seq![3u8],
        r.spec_survive() == seq![1u8, 2u8, 3u8, 4u8, 5u8],
{
    let r = ConstRules::new([3], [1, 2, 3, 4, 5]);
    proof {
        assert(r.spec_birth() =~= seq![3u8]);
        assert(r.spec_survive() =~= seq![1u8, 2u8, 3u8, 4u8, 5u8]);
    }
    r
}

/// The Mazecetric preset: birth on 3, survival on 1 through 4.
pub fn mazecetric() -> (r: ConstRules<1, 4>)
    ensures
        r.spec_birth() == seq![3u8],
        r.spec_survive() == seq![1u8, 2u8, 3u8, 4u8],
{
    let r = ConstRules::new([3], [1, 2, 3, 4]);
    proof {
        assert(r.spec_birth() =~= seq![3u8]);
        assert(r.spec_survive() =~= seq![1u8, 2u8, 3u8, 4u8]);
    }
    r
}

/// A rule whose threshold lists are supplied at runtime.
#[derive(Clone, Debug)]
pub struct DynamicRules {
    birth: Vec<u8>,
    survive: Vec<u8>,
}

impl IsRules for DynamicRules {
    closed spec fn spec_birth(&self) -> Seq<u8> {
        self.birth@
    }

    closed spec fn spec_survive(&self) -> Seq<u8> {
        self.survive@
    }

    fn get_birth(&self) -> (r: Vec<u8>) {
        vstd::slice::slice_to_vec(self.birth.as_slice())
    }

    fn get_surive(&self) -> (r: Vec<u8>) {
        vstd::slice::slice_to_vec(self.survive.as_slice())
    }
}

impl DynamicRules {
    pub fn new(birth: &[u8], survive: &[u8]) -> (r: Self)
        ensures
            r.spec_birth() == birth@,
            r.spec_survive() == survive@,
    {
        DynamicRules {
            birth: vstd::slice::slice_to_vec(birth),
            survive: vstd::slice::slice_to_vec(survive),
        }
    }

    /// Convert any rule losslessly into a dynamic rule.
    pub fn from_rules<R: IsRules>(rules: &R) -> (r: DynamicRules)
        ensures
            r.spec_birth() == rules.spec_birth(),
            r.spec_survive() == rules.spec_survive(),
    {
        DynamicRules { birth: rules.get_birth(), survive: rules.get_surive() }
    }

    /// Parse the textual "B<digits>S<digits>" notation, case-insensitive on
    /// the marker letters. The birth thresholds are the digits between the
    /// first 'b' and the first 's'; the survival thresholds are the digits
    /// after the first 's'; non-digit characters in either part are silently
    /// skipped. Fails iff either marker letter is absent.
    pub fn from_str(s_in: &str) -> (r: Result<DynamicRules, String>)
        ensures
            r is Ok <==> has_birth_marker(s_in@) && has_survival_marker(s_in@),
            r matches Ok(rules) ==> rules.spec_birth() == digits_of(birth_part(s_in@))
                && rules.spec_survive() == digits_of(survival_part(s_in@)),
            r matches Err(m) ==> m@ == "B or S not present in rule string"@,
    {
        let b_loc = find_marker(s_in, 'b', 'B');
        let s_loc = find_marker(s_in, 's', 'S');
        match (b_loc, s_loc) {
            (Some(b), Some(sv)) => {
                proof {
                    lemma_marker_pos_unique(s_in@, 'b', 'B', b as int);
                    lemma_marker_pos_unique(s_in@, 's', 'S', sv as int);
                }
                let n = s_in.unicode_len();
                let birth_digits = if b + 1 <= sv {
                    collect_digits(s_in, b + 1, sv)
                } else {
                    Vec::new()
                };
                let survive_digits = collect_digits(s_in, sv + 1, n);
                Ok(DynamicRules { birth: birth_digits, survive: survive_digits })
            },
            _ => Err(String::from_str("B or S not present in rule string")),
        }
    }
}

/// The rule text "B3S23" carries both marker letters, so parsing it
/// succeeds.
pub proof fn lemma_b3s23_parses()
    ensures
        has_birth_marker("B3S23"@),
        has_survival_marker("B3S23"@),
{
    reveal_strlit("B3S23");
    let s = "B3S23"@;
    lemma_marker_pos_unique(s, 'b', 'B', 0);
    lemma_marker_pos_unique(s, 's', 'S', 2);
}

/// A rule parsed from "B3S23" has the same birth and survival threshold
/// sequences as the Life preset: parsing that text is equivalent to the
/// preset.
pub proof fn lemma_b3s23_is_life(parsed: DynamicRules, preset: ConstRules<1, 2>)
    requires
        parsed.spec_birth() == digits_of(birth_part("B3S23"@)),
        parsed.spec_survive() == digits_of(survival_part("B3S23"@)),
        preset.spec_birth() == seq![3u8],
        preset.spec_survive() == seq![2u8, 3u8],
    ensures
        parsed.spec_birth() == preset.spec_birth(),
        parsed.spec_survive() == preset.spec_survive(),
{
    reveal_strlit("B3S23");
    let s = "B3S23"@;
    lemma_marker_pos_unique(s, 'b', 'B', 0);
    lemma_marker_pos_unique(s, 's', 'S', 2);
    let bp = birth_part(s);
    let sp = survival_part(s);
    assert(bp =~= seq!['3']);
    assert(sp =~= seq!['2', '3']);
    assert(digits_of(bp) =~= seq![3u8]) by {
        assert(bp.drop_last() =~= Seq::<char>::empty());
        assert(digits_of(bp.drop_last()) =~= Seq::<u8>::empty());
        assert(digit_value('3') == 3u8);
    }
    assert(digits_of(sp) =~= seq![2u8, 3u8]) by {
        let s2 = sp.drop_last();
        assert(s2 =~= seq!['2']);
        assert(s2.drop_last() =~= Seq::<char>::empty());
        assert(digits_of(s2.drop_last()) =~= Seq::<u8>::empty());
        assert(digit_value('2') == 2u8);
        assert(digit_value('3') == 3u8);
        assert(digits_of(s2) =~= seq![2u8]);
    }
}

/// The character is the given marker letter, in either case.
pub open spec fn is_marker(c: char, lower: char, upper: char) -> bool {
    c == lower || c == upper
}

/// Position `i` holds the first occurrence of the marker letter.
pub open spec fn marker_at(s: Seq<char>, lower: char, upper: char, i: int) -> bool {
    &&& 0 <= i < s.len()
    &&& is_marker(s[i], lower, upper)
    &&& forall|j: int| 0 <= j < i ==> !is_marker(#[trigger] s[j], lower, upper)
}

pub open spec fn has_marker(s: Seq<char>, lower: char, upper: char) -> bool {
    exists|i: int| marker_at(s, lower, upper, i)
}

pub open spec fn marker_pos(s: Seq<char>, lower: char, upper: char) -> int {
    choose|i: int| marker_at(s, lower, upper, i)
}

pub open spec fn has_birth_marker(s: Seq<char>) -> bool {
    has_marker(s, 'b', 'B')
}

pub open spec fn has_survival_marker(s: Seq<char>) -> bool {
    has_marker(s, 's', 'S')
}

/// The characters between the first 'b' and the first 's' (empty when the
/// 's' comes first).
pub open spec fn birth_part(s: Seq<char>) -> Seq<char> {
    let b = marker_pos(s, 'b', 'B');
    let sv = marker_pos(s, 's', 'S');
    if b + 1 <= sv {
        s.subrange(b + 1, sv)
    } else {
        Seq::<char>::empty()
    }
}

/// The characters after the first 's'.
pub open spec fn survival_part(s: Seq<char>) -> Seq<char> {
    let sv = marker_pos(s, 's', 'S');
    s.subrange(sv + 1, s.len() as int)
}

pub open spec fn is_digit_char(c: char) -> bool {
    48 <= c as u32 <= 57
}

pub open spec fn digit_value(c: char) -> u8 {
    (c as u32 - 48) as u8
}

/// The numeric values of the decimal digits of `s`, in order, with every
/// non-digit character dropped.
pub open spec fn digits_of(s: Seq<char>) -> Seq<u8>
    decreases s.len(),
{
    if s.len() == 0 {
        Seq::<u8>::empty()
    } else if is_digit_char(s.last()) {
        digits_of(s.drop_last()).push(digit_value(s.last()))
    } else {
        digits_of(s.drop_last())
    }
}

/// A first-occurrence position is unique, so it is the chosen marker
/// position.
proof fn lemma_marker_pos_unique(s: Seq<char>, lower: char, upper: char, i: int)
    requires
        marker_at(s, lower, upper, i),
    ensures
        marker_pos(s, lower, upper) == i,
        has_marker(s, lower, upper),
{
    assert(has_marker(s, lower, upper));
    let c = marker_pos(s, lower, upper);
    assert(marker_at(s, lower, upper, c));
    if c < i {
        assert(!is_marker(s[c], lower, upper));
    } else if i < c {
        assert(!is_marker(s[i], lower, upper));
    }
}

/// Scan for the first occurrence of a marker letter in either case.
fn find_marker(s: &str, lower: char, upper: char) -> (r: Option<usize>)
    ensures
        match r {
            Some(i) => marker_at(s@, lower, upper, i as int),
            None => !has_marker(s@, lower, upper),
        },
{
    let n = s.unicode_len();
    let mut i: usize = 0;
    while i < n
        invariant
            i <= n,
            n == s@.len(),
            forall|j: int| 0 <= j < i ==> !is_marker(#[trigger] s@[j], lower, upper),
        decreases n - i,
    {
        let c = s.get_char(i);
        if c == lower || c == upper {
            return Some(i);
        }
        i = i + 1;
    }
    proof {
        assert forall|k: int| !marker_at(s@, lower, upper, k) by {
            if 0 <= k < s@.len() {
                assert(!is_marker(s@[k], lower, upper));
            }
        }
    }
    None
}

/// Collect the digit values of the characters of `s` in positions
/// `from .. to`, skipping non-digits.
fn collect_digits(s: &str, from: usize, to: usize) -> (v: Vec<u8>)
    requires
        from <= to <= s@.len(),
    ensures
        v@ == digits_of(s@.subrange(from as int, to as int)),
{
    let mut v: Vec<u8> = Vec::new();
    let mut i: usize = from;
    while i < to
        invariant
            from <= i <= to <= s@.len(),
            v@ == digits_of(s@.subrange(from as int, i as int)),
        decreases to - i,
    {
        let c = s.get_char(i);
        proof {
            assert(s@.subrange(from as int, i + 1 as int).drop_last() =~= s@.subrange(
                from as int,
                i as int,
            ));
            assert(s@.subrange(from as int, i + 1 as int).last() == s@[i as int]);
        }
        let u = c as u32;
        if 48 <= u && u <= 57 {
            v.push((u - 48) as u8);
        }
        i = i + 1;
    }
    v
}

/// Build a list holding the elements of a fixed-size array, in order.
fn array_to_vec<const N: usize>(a: &[u8; N]) -> (v: Vec<u8>)
    ensures
        v@ == a@,
{
    let mut v: Vec<u8> = Vec::new();
    let mut i: usize = 0;
    while i < N
        invariant
            i <= N,
            a@.len() == N,
            v@ == a@.subrange(0, i as int),
        decreases N - i,
    {
        v.push(a[i]);
        proof {
            assert(v@ =~= a@.subrange(0, i + 1 as int));
        }
        i = i + 1;
    }
    proof {
        assert(a@.subrange(0, N as int) =~= a@);
    }
    v
}

} // verus!
