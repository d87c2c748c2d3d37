use vstd::prelude::*;
use crate::css::{error1, error3, SResult};
use crate::error::SvgStripError;
use crate::text::{chars_of, concat_chars, copy_chars, find_char, index_of, lemma_index_of, string_of, sub_chars};

verus! {

broadcast use vstd::string::group_string_axioms;

/// `[0-9]`
pub open spec fn is_digit(c: char) -> bool {
    '0' <= c && c <= '9'
}

/// Whether every character of `s` is a digit.
pub open spec fn all_digits(s: Seq<char>) -> bool {
    forall|i: int| 0 <= i < s.len() ==> is_digit(#[trigger] s[i])
}

/// `[0-9]+(\.[0-9]+)?`: digits, then optionally a point and more digits.
pub open spec fn is_dimension(s: Seq<char>) -> bool {
    match index_of(s, '.') {
        None => s.len() > 0 && all_digits(s),
        Some(i) => i > 0 && all_digits(s.take(i)) && s.len() > i + 1 && all_digits(s.skip(i + 1)),
    }
}

/// The position of the first `x` or `X` in `s` at or after `i`.
pub open spec fn times_index_from(s: Seq<char>, i: int) -> Option<int>
    decreases s.len() - i,
{
    if i < 0 || i >= s.len() {
        None
    } else if s[i] == 'x' || s[i] == 'X' {
        Some(i)
    } else {
        times_index_from(s, i + 1)
    }
}

pub proof fn lemma_times_index_from(s: Seq<char>, i: int)
    requires
        0 <= i,
    ensures
        times_index_from(s, i) matches Some(k) ==> i <= k < s.len() && (s[k] == 'x' || s[k]
            == 'X'),
    decreases s.len() - i,
{
    if i < s.len() && !(s[i] == 'x' || s[i] == 'X') {
        lemma_times_index_from(s, i + 1);
    }
}

/// The width and the optional height of a size written `SIZE` or `WIDTHxHEIGHT`, as the
/// pattern `^([0-9]+(?:\.[0-9]+)?)(?:[xX]([0-9]+(?:\.[0-9]+)?))?$` reads them.
pub open spec fn split_icon_size(s: Seq<char>) -> Option<(Seq<char>, Option<Seq<char>>)> {
    match times_index_from(s, 0) {
        None => if is_dimension(s) {
            Some((s, None))
        } else {
            None
        },
        Some(k) => if is_dimension(s.take(k)) && is_dimension(s.skip(k + 1)) {
            Some((s.take(k), Some(s.skip(k + 1))))
        } else {
            None
        },
    }
}

/// `s` without its leading zeros.
pub open spec fn trim_leading_zeros(s: Seq<char>) -> Seq<char>
    decreases s.len(),
{
    if s.len() > 0 && s[0] == '0' {
        trim_leading_zeros(s.skip(1))
    } else {
        s
    }
}

/// `s` without its trailing zeros.
pub open spec fn trim_trailing_zeros(s: Seq<char>) -> Seq<char>
    decreases s.len(),
{
    if s.len() > 0 && s.last() == '0' {
        trim_trailing_zeros(s.drop_last())
    } else {
        s
    }
}

pub open spec fn msg_zero_dimension() -> Seq<char> {
    "icon dimensions must be greater than zero"@
}

pub open spec fn msg_icon_size(v: Seq<char>) -> Seq<char> {
    "invalid icon size \""@ + v + "\"; expected SIZE or WIDTHxHEIGHT using positive pixel values"@
}

/// A dimension without leading zeros in its integer part nor trailing zeros in its
/// fraction (which disappears when it is empty); zero is an error.
pub open spec fn normalize_dimension_spec(v: Seq<char>) -> SResult<Seq<char>> {
    let (integer, fraction) = match index_of(v, '.') {
        None => (v, None::<Seq<char>>),
        Some(i) => (v.take(i), Some(v.skip(i + 1))),
    };
    let i1 = trim_leading_zeros(integer);
    let i2 = if i1.len() == 0 {
        seq!['0']
    } else {
        i1
    };
    let normalized = match fraction {
        Some(f) if trim_trailing_zeros(f).len() > 0 => i2 + seq!['.'] + trim_trailing_zeros(f),
        _ => i2,
    };
    if normalized == seq!['0'] {
        Err(msg_zero_dimension())
    } else {
        Ok(normalized)
    }
}

/// The width and height that `IconSize::parse` reads from `v`.
pub open spec fn parse_icon_size_spec(v: Seq<char>) -> SResult<(Seq<char>, Seq<char>)> {
    match split_icon_size(v) {
        None => Err(msg_icon_size(v)),
        Some((w, h)) => match normalize_dimension_spec(w) {
            Err(e) => Err(e),
            Ok(nw) => match h {
                None => Ok((nw, nw)),
                Some(h) => match normalize_dimension_spec(h) {
                    Err(e) => Err(e),
                    Ok(nh) => Ok((nw, nh)),
                },
            },
        },
    }
}

fn all_digits_exec(s: &[char]) -> (r: bool)
    ensures
        r == all_digits(s@),
{
    let mut i: usize = 0;
    while i < s.len()
        invariant
            i <= s.len(),
            forall|j: int| 0 <= j < i ==> is_digit(#[trigger] s@[j]),
        decreases s.len() - i,
    {
        if !('0' <= s[i] && s[i] <= '9') {
            return false;
        }
        i += 1;
    }
    true
}

fn dimension(s: &[char]) -> (r: bool)
    ensures
        r == is_dimension(s@),
{
    proof {
        lemma_index_of(s@, '.');
    }
    match find_char(s, '.') {
        None => s.len() > 0 && all_digits_exec(s),
        Some(i) => {
            let a = sub_chars(s, 0, i);
            let b = sub_chars(s, i + 1, s.len());
            assert(a@ == s@.take(i as int));
            assert(b@ == s@.skip(i + 1));
            i > 0 && all_digits_exec(a.as_slice()) && s.len() > i + 1 && all_digits_exec(b.as_slice())
        },
    }
}

fn trim_leading_zeros_exec(s: &[char]) -> (r: Vec<char>)
    ensures
        r@ == trim_leading_zeros(s@),
{
    let mut i: usize = 0;
    assert(s@.skip(0) =~= s@);
    while i < s.len() && s[i] == '0'
        invariant
            i <= s.len(),
            trim_leading_zeros(s@) == trim_leading_zeros(s@.skip(i as int)),
        decreases s.len() - i,
    {
        assert(s@.skip(i as int).skip(1) =~= s@.skip(i + 1));
        i += 1;
    }
    let r = sub_chars(s, i, s.len());
    assert(r@ =~= s@.skip(i as int));
    r
}

fn trim_trailing_zeros_exec(s: &[char]) -> (r: Vec<char>)
    ensures
        r@ == trim_trailing_zeros(s@),
{
    let mut j: usize = s.len();
    assert(s@.take(s@.len() as int) =~= s@);
    while j > 0 && s[j - 1] == '0'
        invariant
            j <= s.len(),
            trim_trailing_zeros(s@) == trim_trailing_zeros(s@.take(j as int)),
        decreases j,
    {
        assert(s@.take(j as int).drop_last() =~= s@.take(j - 1));
        j -= 1;
    }
    let r = sub_chars(s, 0, j);
    assert(r@ =~= s@.take(j as int));
    r
}

/// Normalizes one dimension of an icon size; zero is an error.
pub fn normalize_icon_dimension(value: &[char]) -> (r: Result<Vec<char>, SvgStripError>)
    ensures
        match r {
            Ok(v) => normalize_dimension_spec(value@) == Ok::<Seq<char>, Seq<char>>(v@),
            Err(e) => normalize_dimension_spec(value@) == Err::<Seq<char>, Seq<char>>(e@),
        },
{
    proof {
        lemma_index_of(value@, '.');
    }
    let (integer, fraction) = match find_char(value, '.') {
        None => (copy_chars(value), None),
        Some(i) => {
            let a = sub_chars(value, 0, i);
            let b = sub_chars(value, i + 1, value.len());
            assert(a@ == value@.take(i as int));
            assert(b@ == value@.skip(i + 1));
            (a, Some(b))
        },
    };
    let i1 = trim_leading_zeros_exec(integer.as_slice());
    let i2 = if i1.len() == 0 {
        let z: Vec<char> = vec!['0'];
        assert(z@ =~= seq!['0']);
        z
    } else {
        i1
    };
    let normalized = match fraction {
        Some(f) => {
            let tf = trim_trailing_zeros_exec(f.as_slice());
            if tf.len() > 0 {
                let mut n = copy_chars(i2.as_slice());
                n.push('.');
                let r = concat_chars(n.as_slice(), tf.as_slice());
                r
            } else {
                i2
            }
        },
        None => i2,
    };
    proof {
        let (gi, gf) = match index_of(value@, '.') {
            None => (value@, None::<Seq<char>>),
            Some(i) => (value@.take(i), Some(value@.skip(i + 1))),
        };
        assert(integer@ == gi);
        let g1 = trim_leading_zeros(gi);
        let g2 = if g1.len() == 0 {
            seq!['0']
        } else {
            g1
        };
        assert(i2@ == g2);
        let gn = match gf {
            Some(f) if trim_trailing_zeros(f).len() > 0 => g2 + seq!['.'] + trim_trailing_zeros(f),
            _ => g2,
        };
        match gf {
            Some(f) => {
                assert(fraction matches Some(fv) && fv@ == f);
                if trim_trailing_zeros(f).len() > 0 {
                    assert(normalized@ =~= gn);
                }
            },
            None => {},
        }
        assert(normalized@ == gn);
    }
    if normalized.len() == 1 && normalized[0] == '0' {
        assert(normalized@ =~= seq!['0']);
        return Err(error1("icon dimensions must be greater than zero"));
    }
    assert(normalized@ != seq!['0']);
    Ok(normalized)
}

/// A fixed pixel size for an icon, as `SIZE` or `WIDTHxHEIGHT`.
#[derive(Debug, Clone, PartialEq, Eq)]
pub struct IconSize {
    width: String,
    height: String,
}

impl View for IconSize {
    type V = (Seq<char>, Seq<char>);

    closed spec fn view(&self) -> (Seq<char>, Seq<char>) {
        (self.width@, self.height@)
    }
}

impl IconSize {
    /// Reads a size: one positive unitless number for both dimensions, or two separated by
    /// `x` or `X`; each is normalized, and zero, units, exponents and spaces are refused.
    pub fn parse(value: &str) -> (r: Result<Self, SvgStripError>)
        ensures
            match r {
                Ok(size) => parse_icon_size_spec(value@) == Ok::<(Seq<char>, Seq<char>), Seq<char>>(
                    size@,
                ),
                Err(e) => parse_icon_size_spec(value@) == Err::<(Seq<char>, Seq<char>), Seq<char>>(
                    e@,
                ),
            },
    {
        let v = chars_of(value);
        let mut k: usize = 0;
        while k < v.len() && v[k] != 'x' && v[k] != 'X'
            invariant
                k <= v.len(),
                times_index_from(v@, 0) == times_index_from(v@, k as int),
            decreases v.len() - k,
        {
            k += 1;
        }
        let (w, h) = if k == v.len() {
            if !dimension(v.as_slice()) {
                return Err(
                    error3(
                        "invalid icon size \"",
                        v.as_slice(),
                        "\"; expected SIZE or WIDTHxHEIGHT using positive pixel values",
                    ),
                );
            }
            (copy_chars(v.as_slice()), None)
        } else {
            let a = sub_chars(v.as_slice(), 0, k);
            let b = sub_chars(v.as_slice(), k + 1, v.len());
            assert(a@ == v@.take(k as int));
            assert(b@ == v@.skip(k + 1));
            if !(dimension(a.as_slice()) && dimension(b.as_slice())) {
                return Err(
                    error3(
                        "invalid icon size \"",
                        v.as_slice(),
                        "\"; expected SIZE or WIDTHxHEIGHT using positive pixel values",
                    ),
                );
            }
            (a, Some(b))
        };
        let width = normalize_icon_dimension(w.as_slice())?;
        let height = match h {
            Some(h) => normalize_icon_dimension(h.as_slice())?,
            None => copy_chars(width.as_slice()),
        };
        Ok(IconSize { width: string_of(width.as_slice()), height: string_of(height.as_slice()) })
    }

    /// The width, in pixels.
    pub fn width(&self) -> (r: &str)
        ensures
            r@ == self@.0,
    {
        self.width.as_str()
    }

    /// The height, in pixels.
    pub fn height(&self) -> (r: &str)
        ensures
            r@ == self@.1,
    {
        self.height.as_str()
    }
}

/* ------------------------------------------------------------------ */
/*  What an accepted size looks like                                  */
/* ------------------------------------------------------------------ */

/// The characters that an accepted size is written with.
pub open spec fn is_size_char(c: char) -> bool {
    is_digit(c) || c == '.' || c == 'x' || c == 'X'
}

/// Whether `s` has a digit other than zero.
pub open spec fn has_nonzero_digit(s: Seq<char>) -> bool {
    exists|i: int| 0 <= i < s.len() && is_digit(#[trigger] s[i]) && s[i] != '0'
}

proof fn lemma_dimension_chars(s: Seq<char>)
    requires
        is_dimension(s),
    ensures
        forall|j: int| 0 <= j < s.len() ==> is_digit(#[trigger] s[j]) || s[j] == '.',
{
    lemma_index_of(s, '.');
    if let Some(i) = index_of(s, '.') {
        assert forall|j: int| 0 <= j < s.len() implies is_digit(#[trigger] s[j]) || s[j] == '.' by {
            if j < i {
                assert(s.take(i)[j] == s[j]);
            } else if j > i {
                assert(s.skip(i + 1)[j - i - 1] == s[j]);
            }
        }
    }
}

/// An accepted size is written with digits, points and `x` or `X` alone: units, signs,
/// exponents and white space are refused.
pub proof fn law_size_characters(v: Seq<char>)
    ensures
        parse_icon_size_spec(v) is Ok ==> forall|i: int| 0 <= i < v.len() ==> is_size_char(#[trigger] v[i]),
{
    lemma_times_index_from(v, 0);
    if parse_icon_size_spec(v) is Ok {
        match times_index_from(v, 0) {
            None => {
                lemma_dimension_chars(v);
            },
            Some(k) => {
                lemma_dimension_chars(v.take(k));
                lemma_dimension_chars(v.skip(k + 1));
                assert forall|i: int| 0 <= i < v.len() implies is_size_char(#[trigger] v[i]) by {
                    if i < k {
                        assert(v.take(k)[i] == v[i]);
                    } else if i > k {
                        assert(v.skip(k + 1)[i - k - 1] == v[i]);
                    }
                }
            },
        }
    }
}

/// A size written as one number is square.
pub proof fn law_single_size_is_square(v: Seq<char>)
    requires
        !v.contains('x'),
        !v.contains('X'),
    ensures
        parse_icon_size_spec(v) matches Ok((w, h)) ==> w == h,
{
    lemma_times_index_from(v, 0);
    if let Some(k) = times_index_from(v, 0) {
        assert(v.contains(v[k]));
    }
}

proof fn lemma_leading_zeros(s: Seq<char>)
    ensures
        all_digits(s) ==> all_digits(trim_leading_zeros(s)),
        trim_leading_zeros(s).len() > 0 ==> trim_leading_zeros(s)[0] != '0',
    decreases s.len(),
{
    if s.len() > 0 && s[0] == '0' {
        lemma_leading_zeros(s.skip(1));
        if all_digits(s) {
            assert forall|j: int| 0 <= j < s.skip(1).len() implies is_digit(#[trigger] s.skip(1)[j]) by {
                assert(s.skip(1)[j] == s[j + 1]);
            }
        }
    }
}

proof fn lemma_trailing_zeros(s: Seq<char>)
    ensures
        all_digits(s) ==> all_digits(trim_trailing_zeros(s)),
        trim_trailing_zeros(s).len() > 0 ==> trim_trailing_zeros(s).last() != '0',
    decreases s.len(),
{
    if s.len() > 0 && s.last() == '0' {
        lemma_trailing_zeros(s.drop_last());
        if all_digits(s) {
            assert forall|j: int| 0 <= j < s.drop_last().len() implies is_digit(
                #[trigger] s.drop_last()[j],
            ) by {
                assert(s.drop_last()[j] == s[j]);
            }
        }
    }
}

proof fn lemma_normalized_positive(v: Seq<char>)
    requires
        is_dimension(v),
    ensures
        normalize_dimension_spec(v) matches Ok(n) ==> has_nonzero_digit(n),
{
    lemma_index_of(v, '.');
    let (integer, fraction) = match index_of(v, '.') {
        None => (v, None::<Seq<char>>),
        Some(i) => (v.take(i), Some(v.skip(i + 1))),
    };
    assert(all_digits(integer));
    lemma_leading_zeros(integer);
    let i1 = trim_leading_zeros(integer);
    let i2 = if i1.len() == 0 {
        seq!['0']
    } else {
        i1
    };
    if let Ok(n) = normalize_dimension_spec(v) {
        if i1.len() > 0 {
            assert(n[0] == i1[0]);
            assert(is_digit(n[0]));
        } else {
            match fraction {
                Some(f) => {
                    assert(all_digits(f));
                    lemma_trailing_zeros(f);
                    let tf = trim_trailing_zeros(f);
                    if tf.len() > 0 {
                        let m = i2 + seq!['.'] + tf;
                        assert(n == m);
                        assert(m[m.len() - 1] == tf[tf.len() - 1]);
                        assert(is_digit(tf[tf.len() - 1]));
                        assert(is_digit(n[n.len() - 1]) && n[n.len() - 1] != '0');
                    } else {
                        assert(n == i2);
                    }
                },
                None => {
                    assert(n == i2);
                },
            }
        }
    }
}

/// Each dimension of an accepted size is a positive number: zero is refused, however
/// it is written.
pub proof fn law_sizes_are_positive(v: Seq<char>)
    ensures
        parse_icon_size_spec(v) matches Ok((w, h)) ==> has_nonzero_digit(w) && has_nonzero_digit(h),
{
    if let Some((w, h)) = split_icon_size(v) {
        lemma_normalized_positive(w);
        if let Some(h) = h {
            lemma_normalized_positive(h);
        }
    }
}

proof fn lemma_no_point_digits(s: Seq<char>)
    requires
        all_digits(s),
    ensures
        index_of(s, '.') is None,
{
    lemma_index_of(s, '.');
    if let Some(k) = index_of(s, '.') {
        assert(is_digit(s[k]));
    }
}

proof fn lemma_leading_zeros_kept(s: Seq<char>)
    requires
        s.len() > 0,
        s[0] != '0',
    ensures
        trim_leading_zeros(s) == s,
{
}

proof fn lemma_trailing_zeros_kept(s: Seq<char>)
    requires
        s.len() > 0,
        s.last() != '0',
    ensures
        trim_trailing_zeros(s) == s,
{
}

/// Normalizing a dimension is idempotent: a normalized dimension normalizes to itself.
pub proof fn law_normalize_idempotent(v: Seq<char>)
    requires
        is_dimension(v),
    ensures
        normalize_dimension_spec(v) matches Ok(n) ==> normalize_dimension_spec(n) == Ok::<
            Seq<char>,
            Seq<char>,
        >(n),
{
    lemma_index_of(v, '.');
    let (integer, fraction) = match index_of(v, '.') {
        None => (v, None::<Seq<char>>),
        Some(i) => (v.take(i), Some(v.skip(i + 1))),
    };
    lemma_leading_zeros(integer);
    let i1 = trim_leading_zeros(integer);
    let i2 = if i1.len() == 0 {
        seq!['0']
    } else {
        i1
    };
    assert(all_digits(i2));
    if let Ok(n) = normalize_dimension_spec(v) {
        let fr = match fraction {
            Some(f) => {
                lemma_trailing_zeros(f);
                trim_trailing_zeros(f)
            },
            None => Seq::empty(),
        };
        if fr.len() > 0 {
            assert(all_digits(fr));
            assert(n == i2 + seq!['.'] + fr);
            lemma_no_point_digits(i2);
            lemma_index_of(n, '.');
            assert(n[i2.len() as int] == '.');
            assert forall|j: int| 0 <= j < i2.len() implies n[j] != '.' by {
                assert(n[j] == i2[j]);
                assert(is_digit(i2[j]));
            }
            assert(index_of(n, '.') == Some(i2.len() as int));
            assert(n.take(i2.len() as int) =~= i2);
            assert(n.skip(i2.len() as int + 1) =~= fr);
            lemma_trailing_zeros_kept(fr);
            if i1.len() > 0 {
                lemma_leading_zeros_kept(i2);
            } else {
                assert(trim_leading_zeros(seq!['0']) == trim_leading_zeros(seq!['0'].skip(1)));
                assert(seq!['0'].skip(1).len() == 0);
            }
        } else {
            assert(n == i2);
            lemma_no_point_digits(n);
            if i1.len() > 0 {
                lemma_leading_zeros_kept(i2);
            }
        }
    }
}

proof fn lemma_normalized_shape(v: Seq<char>)
    requires
        is_dimension(v),
    ensures
        normalize_dimension_spec(v) matches Ok(n) ==> is_dimension(n) && forall|j: int|
            0 <= j < n.len() ==> is_digit(#[trigger] n[j]) || n[j] == '.',
{
    lemma_index_of(v, '.');
    let (integer, fraction) = match index_of(v, '.') {
        None => (v, None::<Seq<char>>),
        Some(i) => (v.take(i), Some(v.skip(i + 1))),
    };
    lemma_leading_zeros(integer);
    let i1 = trim_leading_zeros(integer);
    let i2 = if i1.len() == 0 {
        seq!['0']
    } else {
        i1
    };
    assert(all_digits(i2));
    if let Ok(n) = normalize_dimension_spec(v) {
        let fr = match fraction {
            Some(f) => {
                lemma_trailing_zeros(f);
                trim_trailing_zeros(f)
            },
            None => Seq::empty(),
        };
        lemma_no_point_digits(i2);
        if fr.len() > 0 {
            assert(n == i2 + seq!['.'] + fr);
            lemma_index_of(n, '.');
            assert(n[i2.len() as int] == '.');
            assert forall|j: int| 0 <= j < i2.len() implies n[j] != '.' by {
                assert(n[j] == i2[j]);
            }
            assert(index_of(n, '.') == Some(i2.len() as int));
            assert(n.take(i2.len() as int) =~= i2);
            assert(n.skip(i2.len() as int + 1) =~= fr);
            assert forall|j: int| 0 <= j < n.len() implies is_digit(#[trigger] n[j]) || n[j] == '.' by {
                if j < i2.len() {
                    assert(n[j] == i2[j]);
                } else if j > i2.len() {
                    assert(n[j] == fr[j - i2.len() - 1]);
                }
            }
        } else {
            assert(n == i2);
        }
    }
}

proof fn lemma_times_at(s: Seq<char>, i: int, k: int)
    requires
        0 <= i <= k < s.len(),
        forall|j: int| i <= j < k ==> s[j] != 'x' && s[j] != 'X',
        s[k] == 'x',
    ensures
        times_index_from(s, i) == Some(k),
    decreases k - i,
{
    if i < k {
        lemma_times_at(s, i + 1, k);
    }
}

proof fn lemma_normalized_dimension(v: Seq<char>)
    requires
        is_dimension(v),
    ensures
        normalize_dimension_spec(v) matches Ok(n) ==> is_dimension(n) && normalize_dimension_spec(n)
            == Ok::<Seq<char>, Seq<char>>(n) && forall|j: int|
            0 <= j < n.len() ==> #[trigger] n[j] != 'x' && n[j] != 'X',
{
    lemma_normalized_shape(v);
    law_normalize_idempotent(v);
    if let Ok(n) = normalize_dimension_spec(v) {
        assert forall|j: int| 0 <= j < n.len() implies #[trigger] n[j] != 'x' && n[j] != 'X' by {
            assert(is_digit(n[j]) || n[j] == '.');
        }
    }
}

/// Reading an accepted size back in its normalized form `WIDTHxHEIGHT` gives the same size.
pub proof fn law_normalized_size_reparses(v: Seq<char>)
    ensures
        parse_icon_size_spec(v) matches Ok((w, h)) ==> parse_icon_size_spec(w + seq!['x'] + h)
            == Ok::<(Seq<char>, Seq<char>), Seq<char>>((w, h)),
{
    if let Some((w0, h0)) = split_icon_size(v) {
        lemma_normalized_dimension(w0);
        if let Some(h1) = h0 {
            lemma_normalized_dimension(h1);
        }
        if let Ok((w, h)) = parse_icon_size_spec(v) {
            let s = w + seq!['x'] + h;
            assert forall|j: int| 0 <= j < w.len() implies s[j] != 'x' && s[j] != 'X' by {
                assert(s[j] == w[j]);
            }
            assert(s[w.len() as int] == 'x');
            lemma_times_at(s, 0, w.len() as int);
            assert(s.take(w.len() as int) =~= w);
            assert(s.skip(w.len() as int + 1) =~= h);
        }
    }
}

/// Reading back either normalized dimension alone gives it back, as a square size.
pub proof fn law_normalized_dimension_reparses(v: Seq<char>)
    ensures
        parse_icon_size_spec(v) matches Ok((w, h)) ==> parse_icon_size_spec(w) == Ok::<
            (Seq<char>, Seq<char>),
            Seq<char>,
        >((w, w)) && parse_icon_size_spec(h) == Ok::<(Seq<char>, Seq<char>), Seq<char>>((h, h)),
{
    if let Some((w0, h0)) = split_icon_size(v) {
        lemma_normalized_dimension(w0);
        if let Some(h1) = h0 {
            lemma_normalized_dimension(h1);
        }
        if let Ok((w, h)) = parse_icon_size_spec(v) {
            lemma_times_index_from(w, 0);
            if let Some(k) = times_index_from(w, 0) {
                assert(w[k] != 'x' && w[k] != 'X');
            }
            lemma_times_index_from(h, 0);
            if let Some(k) = times_index_from(h, 0) {
                assert(h[k] != 'x' && h[k] != 'X');
            }
        }
    }
}

/// Whether `s` is written with digits and points alone.
pub open spec fn is_pixel_text(s: Seq<char>) -> bool {
    forall|j: int| 0 <= j < s.len() ==> is_digit(#[trigger] s[j]) || s[j] == '.'
}

/// The width and height of an accepted size are written with digits and points alone.
pub proof fn law_size_dimensions_are_numbers(v: Seq<char>)
    ensures
        parse_icon_size_spec(v) matches Ok((w, h)) ==> is_pixel_text(w) && is_pixel_text(h),
{
    if let Some((w0, h0)) = split_icon_size(v) {
        lemma_normalized_shape(w0);
        if let Some(h1) = h0 {
            lemma_normalized_shape(h1);
        }
    }
}

} // verus!
