//! A palindrome index over an immutable sequence.
//!
//! A sequence of `n` elements is read through a *transformed view* of
//! `2n + 1` tokens: a separator sits at every even transformed index and
//! the element with source index `(ti - 1) / 2` at every odd one. A window
//! of the view that is symmetric about its centre and ends on separators
//! stands for a palindromic range of the sequence whose length is the
//! window's radius, so one table of radii answers for palindromes of odd
//! and of even length alike.
use vstd::prelude::*;
use vstd::laws_eq::obeys_concrete_eq;
use vstd::laws_eq::obeys_eq;
use vstd::laws_eq::obeys_eq_spec_properties;
use vstd::std_specs::cmp::PartialEqSpec;
use std::ops::Range;

verus! {

/// Two tokens of the transformed view of `s` are equal: both are separators,
/// or both are elements and the elements are equal.
pub open spec fn tokens_equal<T: PartialEq>(s: Seq<T>, ti: int, tj: int) -> bool {
    if ti % 2 == 0 {
        tj % 2 == 0
    } else {
        tj % 2 != 0 && s[(ti - 1) / 2].eq_spec(&s[(tj - 1) / 2])
    }
}

/// The window `[ti - d, ti + d]` lies inside the transformed view of `s` and
/// every token of it equals the token opposite to it across `ti`.
pub open spec fn mirrored<T: PartialEq>(s: Seq<T>, ti: int, d: int) -> bool {
    &&& 0 <= d <= ti
    &&& ti + d <= 2 * s.len()
    &&& forall|a: int, b: int|
        ti - d <= a < ti && a + b == 2 * ti ==> #[trigger] tokens_equal(s, a, b)
}

/// `d` is the radius at `ti`: the largest `d` for which the window
/// `[ti - d, ti + d]` of the transformed view is mirrored.
pub open spec fn is_radius<T: PartialEq>(s: Seq<T>, ti: int, d: int) -> bool {
    &&& mirrored(s, ti, d)
    &&& forall|e: int| d < e ==> !#[trigger] mirrored(s, ti, e)
}

/// The half-open range `[l, r)` of `s` reads the same in both directions:
/// every element of its first half equals the one opposite to it.
pub open spec fn palindromic<T: PartialEq>(s: Seq<T>, l: int, r: int) -> bool {
    &&& 0 <= l <= r <= s.len()
    &&& forall|i: int, j: int|
        #![trigger s[i], s[j]]
        l <= i < j < r && i + j == l + r - 1 ==> s[i].eq_spec(&s[j])
}

/// Source index of the element at the odd transformed index `ti`.
fn ti_to_si(ti: usize) -> (si: usize)
    requires
        ti >= 1,
    ensures
        si == (ti - 1) / 2,
{
    (ti - 1) / 2
}

/// Transformed index of the element with source index `si`.
fn si_to_ti(si: usize) -> (ti: usize)
    requires
        2 * si + 1 <= usize::MAX,
    ensures
        ti == 2 * si + 1,
{
    2 * si + 1
}

/// A token of the transformed view.
#[derive(Debug)]
pub enum ManacherValue<T> {
    Sep,
    Char(T),
}

/// The token at index `ti` of the transformed view of `s`.
pub open spec fn token_at<T>(s: Seq<T>, ti: int) -> ManacherValue<T> {
    if ti % 2 == 0 {
        ManacherValue::Sep
    } else {
        ManacherValue::Char(s[(ti - 1) / 2])
    }
}

/// The transformed view of a borrowed sequence. Nothing is copied: a token
/// is computed from its index.
pub struct ManacherString<'a, T>(&'a [T]);

impl<'a, T: Eq + Copy> ManacherString<'a, T> {
    /// The sequence that is viewed.
    pub closed spec fn source(&self) -> Seq<T> {
        self.0@
    }

    /// The transformed view of `s`.
    pub fn new(s: &'a [T]) -> (t: ManacherString<'a, T>)
        ensures
            t.source() == s@,
    {
        ManacherString(s)
    }

    /// The number of tokens, `2n + 1`.
    pub fn len(&self) -> (l: usize)
        requires
            2 * self.source().len() + 1 <= usize::MAX,
        ensures
            l == 2 * self.source().len() + 1,
    {
        self.0.len() * 2 + 1
    }

    /// The token at the transformed index `ti`: a separator where `ti` is
    /// even, else the element with source index `(ti - 1) / 2`.
    pub fn get(&self, ti: usize) -> (v: ManacherValue<T>)
        requires
            ti < 2 * self.source().len() + 1,
        ensures
            v == token_at(self.source(), ti as int),
    {
        if ti % 2 == 0 {
            ManacherValue::Sep
        } else {
            ManacherValue::Char(self.0[ti_to_si(ti)])
        }
    }

    /// Whether the tokens at `ti` and `tj` are equal. Two separators are;
    /// a separator and an element are not; two elements are where `==`
    /// says so.
    pub fn is_equal(&self, ti: usize, tj: usize) -> (b: bool)
        requires
            ti < 2 * self.source().len() + 1,
            tj < 2 * self.source().len() + 1,
        ensures
            T::obeys_eq_spec() ==> b == tokens_equal(self.source(), ti as int, tj as int),
            ti % 2 != tj % 2 ==> !b,
            ti % 2 == 0 && tj % 2 == 0 ==> b,
    {
        match (self.get(ti), self.get(tj)) {
            (ManacherValue::Sep, ManacherValue::Sep) => true,
            (ManacherValue::Char(a), ManacherValue::Char(b)) => a == b,
            _ => false,
        }
    }
}

/// Equality of tokens is symmetric where equality of elements is.
proof fn lemma_tokens_equal_symmetric<T: PartialEq>(s: Seq<T>, a: int, b: int)
    requires
        obeys_eq_spec_properties::<T>(),
    ensures
        tokens_equal(s, a, b) == tokens_equal(s, b, a),
{
    reveal(obeys_eq_spec_properties);
}

/// Equality of tokens is transitive where equality of elements is.
proof fn lemma_tokens_equal_transitive<T: PartialEq>(s: Seq<T>, a: int, b: int, c: int)
    requires
        obeys_eq_spec_properties::<T>(),
        tokens_equal(s, a, b),
        tokens_equal(s, b, c),
    ensures
        tokens_equal(s, a, c),
{
    reveal(obeys_eq_spec_properties);
}

/// What a mirrored window says of the windows inside it: with `i` inside
/// the right half of a mirrored window about `c`, a window about `i` that
/// stays inside it is mirrored as far as the window about the reflection of
/// `i` across `c` is.
proof fn lemma_mirror_seed<T: PartialEq>(s: Seq<T>, c: int, rc: int, i: int, rm: int, m: int)
    requires
        obeys_eq_spec_properties::<T>(),
        mirrored(s, c, rc),
        c < i < c + rc,
        mirrored(s, 2 * c - i, rm),
        0 <= m <= rm,
        i + m <= c + rc,
    ensures
        mirrored(s, i, m),
{
    let mir = 2 * c - i;
    assert forall|a: int, b: int| i - m <= a < i && a + b == 2 * i implies #[trigger] tokens_equal(
        s,
        a,
        b,
    ) by {
        let k = i - a;
        let far = i + k - c;
        assert(tokens_equal(s, c - far, c + far));
        assert(tokens_equal(s, mir - k, i + k));
        assert(tokens_equal(s, mir - k, mir + k));
        lemma_tokens_equal_symmetric(s, mir - k, mir + k);
        if i - k == c {
            lemma_tokens_equal_transitive(s, c, mir - k, i + k);
        } else {
            if i - k > c {
                let near = i - k - c;
                assert(tokens_equal(s, c - near, c + near));
                lemma_tokens_equal_symmetric(s, mir + k, i - k);
            } else {
                let near = c - (i - k);
                assert(tokens_equal(s, c - near, c + near));
            }
            assert(tokens_equal(s, i - k, mir + k));
            lemma_tokens_equal_transitive(s, i - k, mir + k, mir - k);
            lemma_tokens_equal_transitive(s, i - k, mir - k, i + k);
        }
    }
}

/// Each entry of `radii` keeps its window inside a transformed view of
/// `total` tokens and lets it end on separators.
pub open spec fn within(radii: Seq<usize>, total: nat) -> bool {
    forall|ti: int|
        0 <= ti < radii.len() ==> {
            &&& #[trigger] radii[ti] <= ti
            &&& ti + radii[ti] < total
            &&& radii[ti] % 2 == ti % 2
        }
}

/// What every table of radii has, whatever the sequence: an odd length
/// `2n + 1`, and at each index a radius that keeps its window inside the
/// transformed view and lets it end on separators.
pub open spec fn well_formed(radii: Seq<usize>) -> bool {
    radii.len() % 2 == 1 && within(radii, radii.len())
}

/// `radii` is the beginning of the table of radii of `s`: its entry at each
/// index is the radius there.
pub open spec fn is_radius_prefix<T: PartialEq>(s: Seq<T>, radii: Seq<usize>) -> bool {
    &&& radii.len() <= 2 * s.len() + 1
    &&& forall|ti: int| 0 <= ti < radii.len() ==> is_radius(s, ti, #[trigger] radii[ti] as int)
}

/// `radii` is the table of radii of `s`: one entry for each index of the
/// transformed view, each the radius there.
pub open spec fn is_radius_table<T: PartialEq>(s: Seq<T>, radii: Seq<usize>) -> bool {
    radii.len() == 2 * s.len() + 1 && is_radius_prefix(s, radii)
}

/// The right edge of the window at `center`.
spec fn reach(radii: Seq<usize>, center: usize) -> int {
    center + radii[center as int]
}

/// The expansion about `i` has come to the offset `delta`: the window of
/// radius `delta - 1` is mirrored.
spec fn expanded_to<T: PartialEq>(s: Seq<T>, i: usize, delta: usize) -> bool {
    mirrored(s, i as int, delta - 1)
}

/// The seed of an expansion. With `i` inside the window at `center`, the
/// entry at the reflection of `i`, cut to what that window holds, is a
/// mirrored radius at `i`: the expansion may start one past it.
proof fn lemma_seeded<T: PartialEq>(
    s: Seq<T>,
    radii: Seq<usize>,
    center: usize,
    i: usize,
    seed: usize,
)
    requires
        obeys_eq_spec_properties::<T>(),
        is_radius_prefix(s, radii),
        center < i < reach(radii, center),
        i <= radii.len(),
        seed <= radii[2 * center - i],
        i + seed <= reach(radii, center),
    ensures
        expanded_to(s, i, (seed + 1) as usize),
{
    assert(is_radius(s, center as int, radii[center as int] as int));
    assert(is_radius(s, 2 * center - i, radii[2 * center - i] as int));
    lemma_mirror_seed(
        s,
        center as int,
        radii[center as int] as int,
        i as int,
        radii[2 * center - i] as int,
        seed as int,
    );
}

/// The end of an expansion. Where the probe at the offset `delta` leaves
/// the transformed view or finds two tokens that differ, `delta - 1` is
/// the radius at `i`.
proof fn lemma_expansion_ends<T: PartialEq>(s: Seq<T>, i: usize, delta: usize)
    requires
        delta >= 1,
        expanded_to(s, i, delta),
        i + delta > 2 * s.len() || delta > i || !tokens_equal(s, i - delta, i + delta),
    ensures
        is_radius(s, i as int, delta - 1),
{
    assert forall|e: int| delta - 1 < e implies !#[trigger] mirrored(s, i as int, e) by {
        if mirrored(s, i as int, e) {
            assert(tokens_equal(s, i - delta, i + delta));
        }
    }
}

/// `len` is the largest entry of `radii`.
pub open spec fn is_max_radius(radii: Seq<usize>, len: int) -> bool {
    &&& exists|ti: int| 0 <= ti < radii.len() && #[trigger] radii[ti] == len
    &&& forall|ti: int| 0 <= ti < radii.len() ==> #[trigger] radii[ti] <= len
}

/// The radius at the middle of `[l, r)` reaches both ends of the range. An
/// empty range, or one with `l > r`, is covered whatever the table holds.
pub open spec fn covers(radii: Seq<usize>, l: int, r: int) -> bool {
    l >= r || radii[l + r] >= r - l
}

/// The largest entry of `radii`.
pub open spec fn max_radius(radii: Seq<usize>) -> int {
    choose|len: int| is_max_radius(radii, len)
}

/// The window of length `len` about the transformed index `ti` is
/// enumerated: `len` is positive, the radius at `ti` reaches it, and the two
/// are both odd or both even. A length of zero enumerates nothing.
pub open spec fn yields_at(radii: Seq<usize>, len: int, ti: int) -> bool {
    0 < len <= radii[ti] && radii[ti] % 2 == len % 2
}

/// The range of length `len` whose middle is the transformed index `ti`,
/// as its start and its end.
pub open spec fn window_at(len: int, ti: int) -> (int, int) {
    ((ti - len) / 2, (ti - len) / 2 + len)
}

/// The windows of length `len` that are enumerated at the transformed
/// indices from `i` on, in the order of those indices.
pub open spec fn windows_from(radii: Seq<usize>, len: int, i: int) -> Seq<(int, int)>
    decreases radii.len() - i,
{
    if i < 0 || i >= radii.len() {
        Seq::empty()
    } else if yields_at(radii, len, i) {
        seq![window_at(len, i)] + windows_from(radii, len, i + 1)
    } else {
        windows_from(radii, len, i + 1)
    }
}

/// The palindrome index of a sequence: its table of radii.
#[derive(Debug)]
pub struct Manacher(Vec<usize>);

impl View for Manacher {
    type V = Seq<usize>;

    closed spec fn view(&self) -> Seq<usize> {
        self.0@
    }
}

impl Manacher {
    #[verifier::type_invariant]
    spec fn inv(&self) -> bool {
        well_formed(self.0@) && self.0@.len() <= usize::MAX
    }

    /// The length `n` of the sequence that was indexed.
    pub open spec fn source_len(&self) -> int {
        (self@.len() - 1) / 2
    }

    /// Builds the index of `s` in one pass from left to right. The radius at
    /// an index inside the window that reaches furthest to the right is
    /// first taken from its reflection across that window's centre, and only
    /// what lies beyond is compared.
    pub fn new<T: Eq + Copy>(s: &[T]) -> (m: Manacher)
        requires
            2 * s@.len() + 1 <= usize::MAX,
        ensures
            m@.len() == 2 * s@.len() + 1,
            m@[0] == 0,
            forall|ti: int| 0 <= ti < m@.len() ==> #[trigger] m@[ti] <= s@.len(),
            well_formed(m@),
            obeys_eq::<T>() ==> is_radius_table(s@, m@),
    {
        let t = ManacherString::new(s);
        let t_len = t.len();
        let mut ans: Vec<usize> = Vec::new();
        ans.push(0);
        let mut center: usize = 0;
        let mut right: usize = 0;
        let mut i: usize = 1;
        while i < t_len
            invariant
                t.source() == s@,
                t_len == 2 * s@.len() + 1,
                1 <= i <= t_len,
                ans@.len() == i,
                center < i,
                right == reach(ans@, center),
                within(ans@, 2 * s@.len() + 1),
                obeys_eq::<T>() ==> is_radius_prefix(s@, ans@),
            decreases t_len - i,
        {
            let mut delta: usize = if i >= right {
                1
            } else {
                let i_mirror = center - (i - center);
                let seen = ans[i_mirror];
                let room = right - i;
                let seed = if seen < room {
                    seen
                } else {
                    room
                };
                proof {
                    if obeys_eq::<T>() {
                        lemma_seeded(s@, ans@, center, i, seed);
                    }
                }
                seed + 1
            };
            while i + delta < t_len && delta <= i && t.is_equal(i + delta, i - delta)
                invariant
                    t.source() == s@,
                    t_len == 2 * s@.len() + 1,
                    i < t_len,
                    1 <= delta <= i + 1,
                    i + delta <= t_len,
                    obeys_eq::<T>() ==> expanded_to(s@, i, delta),
                decreases t_len - delta,
            {
                proof {
                    if obeys_eq::<T>() {
                        lemma_tokens_equal_symmetric(s@, i + delta, i - delta);
                    }
                }
                delta += 1;
            }
            let radius = delta - 1;
            proof {
                if obeys_eq::<T>() {
                    lemma_tokens_equal_symmetric(s@, i + delta, i - delta);
                    lemma_expansion_ends(s@, i, delta);
                }
            }
            ans.push(radius);
            let new_right = i + radius;
            if new_right > right {
                right = new_right;
                center = i;
            }
            i += 1;
        }
        proof {
            assert forall|ti: int| 0 <= ti < ans@.len() implies #[trigger] ans@[ti] <= s@.len() by {
                assert(ans@[ti] <= ti && ti + ans@[ti] < t_len);
            }
        }
        Manacher(ans)
    }

    /// The length of the longest palindromic range: the largest radius.
    pub fn max_palindrome_len(&self) -> (len: usize)
        ensures
            is_max_radius(self@, len as int),
            len == max_radius(self@),
    {
        proof {
            use_type_invariant(self);
        }
        let mut best: usize = self.0[0];
        let mut i: usize = 1;
        while i < self.0.len()
            invariant
                1 <= i <= self.0@.len(),
                exists|ti: int| 0 <= ti < i && self.0@[ti] == best,
                forall|ti: int| 0 <= ti < i ==> self.0@[ti] <= best,
            decreases self.0@.len() - i,
        {
            if self.0[i] > best {
                best = self.0[i];
            }
            i += 1;
        }
        proof {
            assert(is_max_radius(self@, best as int));
            lemma_max_radius_unique(self@, best as int, max_radius(self@));
        }
        best
    }

    /// The palindromic ranges of length `len`, from left to right. The
    /// enumeration is lazy and starts anew with every call. For `len == 0`
    /// it is empty.
    pub fn iter_of_len(&self, len: usize) -> (it: ManacherIter<'_>)
        ensures
            it.remaining() == windows_from(self@, len as int, 0),
            forall|a: int, b: int|
                0 <= a < b < it.remaining().len() ==> it.remaining()[a].0 < it.remaining()[b].0,
    {
        proof {
            use_type_invariant(self);
            lemma_windows_ascending(self@, len as int, 0);
        }
        ManacherIter { data: self, i: 0, len }
    }

    /// The palindromic ranges of the greatest length, from left to right.
    pub fn iter_of_max(&self) -> (it: ManacherIter<'_>)
        ensures
            it.remaining() == windows_from(self@, max_radius(self@), 0),
            forall|a: int, b: int|
                0 <= a < b < it.remaining().len() ==> it.remaining()[a].0 < it.remaining()[b].0,
    {
        let len = self.max_palindrome_len();
        proof {
            use_type_invariant(self);
            lemma_windows_ascending(self@, len as int, 0);
        }
        ManacherIter { data: self, i: 0, len }
    }

    /// The longest palindromic range of odd length whose middle element has
    /// source index `si`.
    pub fn odd_longest_at(&self, si: usize) -> (range: Range<usize>)
        requires
            si < self.source_len(),
        ensures
            range.start == si - self@[2 * si + 1] / 2,
            range.end == si + self@[2 * si + 1] / 2 + 1,
            range.end - range.start == self@[2 * si + 1],
    {
        proof {
            use_type_invariant(self);
        }
        let longest_len = self.0[si_to_ti(si)];
        let rad = longest_len / 2;
        si - rad..si + rad + 1
    }

    /// The longest palindromic range of even length whose middle lies
    /// between the source indices `si` and `next_si`.
    pub fn even_longest_at(&self, si: usize, next_si: usize) -> (range: Range<usize>)
        requires
            si + 1 == next_si,
            next_si <= self.source_len(),
        ensures
            range.start == next_si - self@[2 * next_si] / 2,
            range.end == next_si + self@[2 * next_si] / 2,
            range.end - range.start == self@[2 * next_si],
    {
        proof {
            use_type_invariant(self);
        }
        let ti = si_to_ti(si) + 1;
        let longest_len = self.0[ti];
        let rad = longest_len / 2;
        next_si - rad..next_si + rad
    }

    /// Whether the half-open range `[sl, sr)` is palindromic, by one look at
    /// the radius at its middle. An empty range is.
    pub fn is_palindrome(&self, sl: usize, sr: usize) -> (b: bool)
        requires
            sl >= sr || sr <= self.source_len(),
        ensures
            b == covers(self@, sl as int, sr as int),
    {
        if sl >= sr {
            return true;
        }
        let slen = sr - sl;
        let range = if slen % 2 == 0 {
            let center = sl + slen / 2 - 1;
            self.even_longest_at(center, center + 1)
        } else {
            let center = sl + slen / 2;
            self.odd_longest_at(center)
        };
        range.end - range.start >= slen
    }
}

/// A range is palindromic exactly when the window that stands for it in
/// the transformed view is mirrored: the window about `l + r` with radius
/// `r - l`.
pub proof fn lemma_palindromic_iff_mirrored<T: PartialEq>(s: Seq<T>, l: int, r: int)
    requires
        0 <= l <= r <= s.len(),
    ensures
        palindromic(s, l, r) == mirrored(s, l + r, r - l),
{
    let ti = l + r;
    if palindromic(s, l, r) {
        assert forall|a: int, b: int|
            ti - (r - l) <= a < ti && a + b == 2 * ti implies #[trigger] tokens_equal(s, a, b) by {
            if a % 2 != 0 {
                assert(s[(a - 1) / 2].eq_spec(&s[(b - 1) / 2]));
            }
        }
    }
    if mirrored(s, ti, r - l) {
        assert forall|i: int, j: int|
            #![trigger s[i], s[j]]
            l <= i < j < r && i + j == l + r - 1 implies s[i].eq_spec(&s[j]) by {
            assert(tokens_equal(s, 2 * i + 1, 2 * j + 1));
        }
    }
}

/// A window at its radius ends on separators: the radius is odd at the
/// index of an element and even at that of a separator.
pub proof fn lemma_radius_parity<T: PartialEq>(s: Seq<T>, ti: int, d: int)
    requires
        is_radius(s, ti, d),
    ensures
        d % 2 == ti % 2,
{
    if (ti - d) % 2 != 0 {
        assert forall|a: int, b: int|
            ti - (d + 1) <= a < ti && a + b == 2 * ti implies #[trigger] tokens_equal(s, a, b) by {
            if a >= ti - d {
                assert(tokens_equal(s, a, b));
            }
        }
        assert(mirrored(s, ti, d + 1));
    }
}

/// The table of radii of a sequence is well formed.
pub proof fn lemma_radius_table_well_formed<T: PartialEq>(s: Seq<T>, radii: Seq<usize>)
    requires
        is_radius_table(s, radii),
    ensures
        well_formed(radii),
{
    assert forall|ti: int| 0 <= ti < radii.len() implies {
        &&& #[trigger] radii[ti] <= ti
        &&& ti + radii[ti] < radii.len()
        &&& radii[ti] % 2 == ti % 2
    } by {
        lemma_radius_parity(s, ti, radii[ti] as int);
    }
}

/// On the table of radii of `s`, a range of `s` is covered exactly when it
/// is palindromic: the answer of [`Manacher::is_palindrome`] on the index
/// of `s` is that of comparing the elements of the range pair by pair.
pub proof fn lemma_covers_iff_palindromic<T: PartialEq>(
    s: Seq<T>,
    radii: Seq<usize>,
    l: int,
    r: int,
)
    requires
        is_radius_table(s, radii),
        0 <= l <= r <= s.len(),
    ensures
        covers(radii, l, r) == palindromic(s, l, r),
{
    lemma_palindromic_iff_mirrored(s, l, r);
    let ti = l + r;
    let d = radii[ti] as int;
    assert(is_radius(s, ti, d));
    if d >= r - l {
        assert forall|a: int, b: int|
            ti - (r - l) <= a < ti && a + b == 2 * ti implies #[trigger] tokens_equal(s, a, b) by {
            assert(tokens_equal(s, a, b));
        }
    }
}

/// The largest entry of the table of radii of `s` is the length of the
/// longest palindromic range of `s`: some range of that length is
/// palindromic, and no palindromic range is longer.
pub proof fn lemma_max_radius_is_longest<T: PartialEq>(s: Seq<T>, radii: Seq<usize>, len: int)
    requires
        is_radius_table(s, radii),
        is_max_radius(radii, len),
    ensures
        exists|l: int| palindromic(s, l, #[trigger] (l + len)),
        forall|l: int, r: int| #[trigger] palindromic(s, l, r) ==> r - l <= len,
{
    let ti = choose|ti: int| 0 <= ti < radii.len() && #[trigger] radii[ti] == len;
    assert(is_radius(s, ti, radii[ti] as int));
    lemma_radius_parity(s, ti, len);
    let l = (ti - len) / 2;
    lemma_palindromic_iff_mirrored(s, l, l + len);
    assert(palindromic(s, l, l + len));
    assert forall|l: int, r: int| #[trigger] palindromic(s, l, r) implies r - l <= len by {
        lemma_covers_iff_palindromic(s, radii, l, r);
        assert(radii[l + r] <= len);
    }
}

/// The radius at `ti` in the table of radii of `s` is the length of the
/// longest palindromic range of `s` whose middle is at `ti`: the range of
/// that length about `ti` is palindromic, and no palindromic range with
/// the same middle is longer.
pub proof fn lemma_radius_is_longest_about<T: PartialEq>(s: Seq<T>, radii: Seq<usize>, ti: int)
    requires
        is_radius_table(s, radii),
        0 <= ti < radii.len(),
    ensures
        radii[ti] % 2 == ti % 2,
        palindromic(s, (ti - radii[ti]) / 2, (ti + radii[ti]) / 2),
        forall|l: int, r: int|
            #[trigger] palindromic(s, l, r) && l + r == ti ==> r - l <= radii[ti],
{
    let d = radii[ti] as int;
    assert(is_radius(s, ti, d));
    lemma_radius_parity(s, ti, d);
    lemma_palindromic_iff_mirrored(s, (ti - d) / 2, (ti + d) / 2);
    assert forall|l: int, r: int| #[trigger] palindromic(s, l, r) && l + r == ti implies r - l
        <= radii[ti] by {
        lemma_covers_iff_palindromic(s, radii, l, r);
    }
}

/// Where equality of elements is identity, a range is palindromic exactly
/// when it equals its own reverse.
pub proof fn lemma_palindromic_iff_own_reverse<T: PartialEq>(s: Seq<T>, l: int, r: int)
    requires
        obeys_concrete_eq::<T>(),
        0 <= l <= r <= s.len(),
    ensures
        palindromic(s, l, r) == (s.subrange(l, r) == s.subrange(l, r).reverse()),
{
    reveal(obeys_concrete_eq);
    let w = s.subrange(l, r);
    if palindromic(s, l, r) {
        assert forall|i: int| 0 <= i < w.len() implies w[i] == w.reverse()[i] by {
            let j = w.len() - 1 - i;
            if i < j {
                assert(s[l + i].eq_spec(&s[l + j]));
            } else if j < i {
                assert(s[l + j].eq_spec(&s[l + i]));
            }
        }
        assert(w =~= w.reverse());
    }
    if w == w.reverse() {
        assert forall|i: int, j: int|
            #![trigger s[i], s[j]]
            l <= i < j < r && i + j == l + r - 1 implies s[i].eq_spec(&s[j]) by {
            assert(w[i - l] == w.reverse()[i - l]);
            assert(w.reverse()[i - l] == w[j - l]);
        }
    }
}

/// What the enumeration holds: a window occurs among those enumerated from
/// `i` on exactly when it is the window at an index from `i` on at which
/// one is enumerated.
pub proof fn lemma_windows_contain(radii: Seq<usize>, len: int, i: int, w: (int, int))
    requires
        0 <= i,
    ensures
        windows_from(radii, len, i).contains(w) <==> exists|ti: int|
            i <= ti < radii.len() && #[trigger] yields_at(radii, len, ti) && w == window_at(
                len,
                ti,
            ),
    decreases radii.len() - i,
{
    let here = windows_from(radii, len, i);
    if i < radii.len() {
        let rest = windows_from(radii, len, i + 1);
        lemma_windows_contain(radii, len, i + 1, w);
        if yields_at(radii, len, i) {
            let head = seq![window_at(len, i)];
            assert(here == head + rest);
            if here.contains(w) {
                let a = choose|a: int| 0 <= a < here.len() && here[a] == w;
                if a > 0 {
                    assert(rest[a - 1] == w);
                }
            }
            if w == window_at(len, i) {
                assert(here[0] == w);
            }
            if rest.contains(w) {
                let a = choose|a: int| 0 <= a < rest.len() && rest[a] == w;
                assert(here[a + 1] == w);
            }
        }
    }
}

/// On the table of radii of `s`, the windows of a positive length `len`
/// that are enumerated are the palindromic ranges of `s` of that length:
/// what [`Manacher::iter_of_len`] hands out on the index of `s`.
pub proof fn lemma_windows_are_palindromes<T: PartialEq>(
    s: Seq<T>,
    radii: Seq<usize>,
    len: int,
    l: int,
)
    requires
        is_radius_table(s, radii),
        0 < len,
    ensures
        windows_from(radii, len, 0).contains((l, l + len)) <==> palindromic(s, l, l + len),
{
    lemma_radius_table_well_formed(s, radii);
    lemma_windows_contain(radii, len, 0, (l, l + len));
    if palindromic(s, l, l + len) {
        lemma_covers_iff_palindromic(s, radii, l, l + len);
        let ti = 2 * l + len;
        assert(radii[ti] % 2 == ti % 2);
        assert(yields_at(radii, len, ti) && (l, l + len) == window_at(len, ti));
    }
    if windows_from(radii, len, 0).contains((l, l + len)) {
        let ti = choose|ti: int|
            0 <= ti < radii.len() && #[trigger] yields_at(radii, len, ti) && (l, l + len)
                == window_at(len, ti);
        assert(radii[ti] <= ti && radii[ti] % 2 == ti % 2);
        assert(ti == 2 * l + len);
        lemma_covers_iff_palindromic(s, radii, l, l + len);
    }
}

/// A table has one largest entry at most.
pub proof fn lemma_max_radius_unique(radii: Seq<usize>, a: int, b: int)
    requires
        is_max_radius(radii, a),
        is_max_radius(radii, b),
    ensures
        a == b,
{
}

/// The starts of the enumerated windows increase strictly, so that no
/// window is enumerated twice; each has the length asked for and lies in
/// the sequence; and none starts before the window at index `i` would.
pub proof fn lemma_windows_ascending(radii: Seq<usize>, len: int, i: int)
    requires
        well_formed(radii),
        0 <= i,
    ensures
        forall|a: int|
            0 <= a < windows_from(radii, len, i).len() ==> {
                let w = #[trigger] windows_from(radii, len, i)[a];
                &&& 0 <= w.0
                &&& i <= 2 * w.0 + len
                &&& w.1 == w.0 + len
                &&& 2 * w.1 < radii.len()
            },
        forall|a: int, b: int|
            0 <= a < b < windows_from(radii, len, i).len() ==> windows_from(radii, len, i)[a].0
                < windows_from(radii, len, i)[b].0,
    decreases radii.len() - i,
{
    if i < radii.len() {
        lemma_windows_ascending(radii, len, i + 1);
        let here = windows_from(radii, len, i);
        let rest = windows_from(radii, len, i + 1);
        if yields_at(radii, len, i) {
            let first = window_at(len, i);
            assert(radii[i] <= i && i + radii[i] < radii.len() && radii[i] % 2 == i % 2);
            assert(here == seq![first] + rest);
            assert(2 * first.0 + len == i);
            assert forall|a: int| 0 <= a < here.len() implies {
                let w = #[trigger] here[a];
                &&& 0 <= w.0
                &&& i <= 2 * w.0 + len
                &&& w.1 == w.0 + len
                &&& 2 * w.1 < radii.len()
            } by {
                if a > 0 {
                    assert(here[a] == rest[a - 1]);
                }
            }
            assert forall|a: int, b: int| 0 <= a < b < here.len() implies here[a].0
                < here[b].0 by {
                assert(here[b] == rest[b - 1]);
                if a > 0 {
                    assert(here[a] == rest[a - 1]);
                }
            }
        } else {
            assert(here == rest);
        }
    }
}

/// The enumeration of the windows of one length over an index.
pub struct ManacherIter<'a> {
    data: &'a Manacher,
    i: usize,
    len: usize,
}

impl<'a> ManacherIter<'a> {
    /// The windows still to come, each as its start and its end.
    pub closed spec fn remaining(&self) -> Seq<(int, int)> {
        windows_from(self.data@, self.len as int, self.i as int)
    }

    /// The next window, or `None` when all have been handed out.
    pub fn next(&mut self) -> (item: Option<Range<usize>>)
        ensures
            match item {
                Some(range) => old(self).remaining() == seq![
                    (range.start as int, range.end as int),
                ] + final(self).remaining(),
                None => old(self).remaining().len() == 0 && final(self).remaining().len() == 0,
            },
    {
        proof {
            use_type_invariant(self.data);
        }
        while self.i < self.data.0.len()
            invariant
                self.data == old(self).data,
                self.len == old(self).len,
                well_formed(self.data@),
                windows_from(self.data@, self.len as int, self.i as int) == old(self).remaining(),
            decreases self.data@.len() - self.i,
        {
            let ti = self.i;
            let rad = self.data.0[ti];
            self.i += 1;
            if self.len > 0 && rad >= self.len && rad % 2 == self.len % 2 {
                let start_si = ti_to_si(ti + 1 - self.len);
                return Some(start_si..start_si + self.len);
            }
        }
        None
    }
}

/// Whether `[l, r)` is palindromic, by comparing the elements pair by pair
/// from both ends. A range with `l >= r` is.
pub fn naive_palindrome<T: Eq>(s: &[T], l: usize, r: usize) -> (b: bool)
    requires
        l >= r || r <= s@.len(),
    ensures
        T::obeys_eq_spec() ==> b == (l >= r || palindromic(s@, l as int, r as int)),
{
    if l >= r {
        return true;
    }
    let mut i = l;
    let mut j = r - 1;
    while i < j
        invariant
            l <= i,
            j < r <= s@.len(),
            i + j == l + r - 1,
            T::obeys_eq_spec() ==> forall|a: int, b: int|
                #![trigger s@[a], s@[b]]
                l <= a < i && a + b == l + r - 1 ==> s@[a].eq_spec(&s@[b]),
        decreases j,
    {
        if s[i] != s[j] {
            return false;
        }
        i += 1;
        j -= 1;
    }
    true
}

} // verus!
