//! Numeric-prefix-aware ordering of task names.
//!
//! A name is split into a leading run of ascii digits (its numeric prefix)
//! and the rest. Names whose numeric prefixes differ in value compare
//! numerically; everything else falls back to plain lexicographic
//! comparison of the full names, so that `"2_task"` sorts before
//! `"10_task"`.

use vstd::prelude::*;

verus! {

use vstd::arithmetic::mul::lemma_mul_inequality;

pub open spec fn is_digit_char(c: char) -> bool {
    48 <= c as u32 && c as u32 <= 57
}

pub open spec fn digit_val(c: char) -> nat {
    (c as u32 - 48) as nat
}

/// Length of the longest leading run of ascii digits.
pub open spec fn digit_prefix_len(s: Seq<char>) -> nat
    decreases s.len(),
{
    if s.len() > 0 && is_digit_char(s[0]) {
        1 + digit_prefix_len(s.drop_first())
    } else {
        0
    }
}

pub open spec fn pow10(n: nat) -> nat
    decreases n,
{
    if n == 0 {
        1
    } else {
        10 * pow10((n - 1) as nat)
    }
}

/// Value of a digit string, most significant digit first.
pub open spec fn digits_val(s: Seq<char>) -> nat
    decreases s.len(),
{
    if s.len() == 0 {
        0
    } else {
        digit_val(s[0]) * pow10((s.len() - 1) as nat) + digits_val(s.drop_first())
    }
}

/// The value of a name's numeric prefix, if it has one.
pub open spec fn numeric_prefix_val(s: Seq<char>) -> Option<nat> {
    if digit_prefix_len(s) > 0 {
        Some(digits_val(s.subrange(0, digit_prefix_len(s) as int)))
    } else {
        None
    }
}

/// Plain lexicographic order on character sequences.
pub open spec fn lex_le(a: Seq<char>, b: Seq<char>) -> bool
    decreases a.len(),
{
    if a.len() == 0 {
        true
    } else if b.len() == 0 {
        false
    } else if (a[0] as u32) < (b[0] as u32) {
        true
    } else if (a[0] as u32) > (b[0] as u32) {
        false
    } else {
        lex_le(a.drop_first(), b.drop_first())
    }
}

/// The ordering used for task names: names without a numeric prefix come
/// before names with one; distinct numeric prefix values order numerically;
/// all remaining ties are broken by the raw name.
pub open spec fn name_le(a: Seq<char>, b: Seq<char>) -> bool {
    match (numeric_prefix_val(a), numeric_prefix_val(b)) {
        (None, Some(_)) => true,
        (Some(_), None) => false,
        (Some(x), Some(y)) => if x != y {
            x < y
        } else {
            lex_le(a, b)
        },
        (None, None) => lex_le(a, b),
    }
}

pub proof fn lemma_lex_le_total(a: Seq<char>, b: Seq<char>)
    ensures
        lex_le(a, b) || lex_le(b, a),
    decreases a.len(),
{
    if a.len() > 0 && b.len() > 0 && a[0] as u32 == b[0] as u32 {
        lemma_lex_le_total(a.drop_first(), b.drop_first());
    }
}

pub proof fn lemma_lex_le_trans(a: Seq<char>, b: Seq<char>, c: Seq<char>)
    requires
        lex_le(a, b),
        lex_le(b, c),
    ensures
        lex_le(a, c),
    decreases a.len(),
{
    if a.len() > 0 && b.len() > 0 && c.len() > 0 {
        if a[0] as u32 == b[0] as u32 && b[0] as u32 == c[0] as u32 {
            lemma_lex_le_trans(a.drop_first(), b.drop_first(), c.drop_first());
        }
    }
}

pub proof fn lemma_name_le_total(a: Seq<char>, b: Seq<char>)
    ensures
        name_le(a, b) || name_le(b, a),
{
    lemma_lex_le_total(a, b);
}

pub proof fn lemma_name_le_trans(a: Seq<char>, b: Seq<char>, c: Seq<char>)
    requires
        name_le(a, b),
        name_le(b, c),
    ensures
        name_le(a, c),
{
    if name_le(a, c) {
    } else {
        lemma_lex_le_trans(a, b, c);
    }
}

pub open spec fn all_digits(s: Seq<char>) -> bool {
    forall|k: int| 0 <= k < s.len() ==> is_digit_char(#[trigger] s[k])
}

pub proof fn lemma_digit_prefix_len_props(s: Seq<char>)
    ensures
        digit_prefix_len(s) <= s.len(),
        forall|k: int| 0 <= k < digit_prefix_len(s) ==> is_digit_char(#[trigger] s[k]),
        digit_prefix_len(s) < s.len() ==> !is_digit_char(s[digit_prefix_len(s) as int]),
    decreases s.len(),
{
    if s.len() > 0 && is_digit_char(s[0]) {
        lemma_digit_prefix_len_props(s.drop_first());
        assert forall|k: int| 0 <= k < digit_prefix_len(s) implies is_digit_char(
            #[trigger] s[k],
        ) by {
            if k > 0 {
                assert(s.drop_first()[k - 1] == s[k]);
            }
        }
        if digit_prefix_len(s) < s.len() {
            assert(s.drop_first()[digit_prefix_len(s.drop_first()) as int]
                == s[digit_prefix_len(s) as int]);
        }
    }
}

pub proof fn lemma_digit_prefix_len_from_scan(s: Seq<char>, p: int)
    requires
        0 <= p <= s.len(),
        forall|k: int| 0 <= k < p ==> is_digit_char(#[trigger] s[k]),
        p == s.len() || !is_digit_char(s[p]),
    ensures
        digit_prefix_len(s) == p,
    decreases p,
{
    if p == 0 {
    } else {
        assert(is_digit_char(s[0]));
        assert forall|k: int| 0 <= k < p - 1 implies is_digit_char(
            #[trigger] s.drop_first()[k],
        ) by {
            assert(s.drop_first()[k] == s[k + 1]);
        }
        if p < s.len() {
            assert(s.drop_first()[p - 1] == s[p]);
        }
        lemma_digit_prefix_len_from_scan(s.drop_first(), p - 1);
    }
}

pub proof fn lemma_digits_val_skip_zeros(s: Seq<char>, z: int)
    requires
        0 <= z <= s.len(),
        forall|k: int| 0 <= k < z ==> digit_val(#[trigger] s[k]) == 0,
    ensures
        digits_val(s) == digits_val(s.skip(z)),
    decreases z,
{
    if z == 0 {
        assert(s.skip(0) =~= s);
    } else {
        assert(digit_val(s[0]) == 0);
        assert(digits_val(s) == digits_val(s.drop_first()));
        assert forall|k: int| 0 <= k < z - 1 implies digit_val(
            #[trigger] s.drop_first()[k],
        ) == 0 by {
            assert(s.drop_first()[k] == s[k + 1]);
        }
        lemma_digits_val_skip_zeros(s.drop_first(), z - 1);
        assert(s.drop_first().skip(z - 1) =~= s.skip(z));
    }
}

pub proof fn lemma_pow10_pos(n: nat)
    ensures
        pow10(n) >= 1,
    decreases n,
{
    if n > 0 {
        lemma_pow10_pos((n - 1) as nat);
    }
}

pub proof fn lemma_pow10_mono(m: nat, n: nat)
    requires
        m <= n,
    ensures
        pow10(m) <= pow10(n),
    decreases n,
{
    if m < n {
        lemma_pow10_mono(m, (n - 1) as nat);
        lemma_pow10_pos((n - 1) as nat);
    }
}

pub proof fn lemma_digits_val_upper(s: Seq<char>)
    requires
        all_digits(s),
    ensures
        digits_val(s) < pow10(s.len()),
    decreases s.len(),
{
    if s.len() == 0 {
    } else {
        assert(all_digits(s.drop_first())) by {
            assert forall|k: int| 0 <= k < s.drop_first().len() implies is_digit_char(
                #[trigger] s.drop_first()[k],
            ) by {
                assert(s.drop_first()[k] == s[k + 1]);
            }
        }
        lemma_digits_val_upper(s.drop_first());
        let p = pow10((s.len() - 1) as nat);
        assert(is_digit_char(s[0]));
        assert(digit_val(s[0]) <= 9);
        lemma_mul_inequality(digit_val(s[0]) as int, 9, p as int);
        assert(10 * p == 9 * p + p);
    }
}

pub proof fn lemma_digits_val_lower(s: Seq<char>)
    requires
        all_digits(s),
        s.len() > 0,
        digit_val(s[0]) >= 1,
    ensures
        digits_val(s) >= pow10((s.len() - 1) as nat),
{
    let p = pow10((s.len() - 1) as nat);
    lemma_mul_inequality(1, digit_val(s[0]) as int, p as int);
}

pub proof fn lemma_digits_val_lt(a: Seq<char>, b: Seq<char>, k: int)
    requires
        a.len() == b.len(),
        all_digits(a),
        all_digits(b),
        0 <= k < a.len(),
        forall|j: int| 0 <= j < k ==> #[trigger] (a[j] as u32) == b[j] as u32,
        digit_val(a[k]) < digit_val(b[k]),
    ensures
        digits_val(a) < digits_val(b),
    decreases k,
{
    let p = pow10((a.len() - 1) as nat);
    if k == 0 {
        assert(all_digits(a.drop_first())) by {
            assert forall|j: int| 0 <= j < a.drop_first().len() implies is_digit_char(
                #[trigger] a.drop_first()[j],
            ) by {
                assert(a.drop_first()[j] == a[j + 1]);
            }
        }
        lemma_digits_val_upper(a.drop_first());
        lemma_mul_inequality(digit_val(a[0]) as int + 1, digit_val(b[0]) as int, p as int);
        assert((digit_val(a[0]) as int + 1) * (p as int) == digit_val(a[0]) * p + p)
            by (nonlinear_arith);
    } else {
        assert(a[0] as u32 == b[0] as u32);
        assert(all_digits(a.drop_first()) && all_digits(b.drop_first())) by {
            assert forall|j: int| 0 <= j < a.drop_first().len() implies is_digit_char(
                #[trigger] a.drop_first()[j],
            ) && is_digit_char(#[trigger] b.drop_first()[j]) by {
                assert(a.drop_first()[j] == a[j + 1]);
                assert(b.drop_first()[j] == b[j + 1]);
            }
        }
        assert forall|j: int| 0 <= j < k - 1 implies #[trigger] (a.drop_first()[j] as u32)
            == b.drop_first()[j] as u32 by {
            assert(a.drop_first()[j] == a[j + 1]);
            assert(b.drop_first()[j] == b[j + 1]);
        }
        assert(a.drop_first()[k - 1] == a[k]);
        assert(b.drop_first()[k - 1] == b[k]);
        lemma_digits_val_lt(a.drop_first(), b.drop_first(), k - 1);
    }
}

pub proof fn lemma_digits_val_congruent(a: Seq<char>, b: Seq<char>)
    requires
        a.len() == b.len(),
        forall|j: int| 0 <= j < a.len() ==> #[trigger] (a[j] as u32) == b[j] as u32,
    ensures
        digits_val(a) == digits_val(b),
    decreases a.len(),
{
    if a.len() > 0 {
        assert(a[0] as u32 == b[0] as u32);
        assert forall|j: int| 0 <= j < a.drop_first().len() implies #[trigger] (
        a.drop_first()[j] as u32) == b.drop_first()[j] as u32 by {
            assert(a.drop_first()[j] == a[j + 1]);
            assert(b.drop_first()[j] == b[j + 1]);
        }
        lemma_digits_val_congruent(a.drop_first(), b.drop_first());
    }
}

pub proof fn lemma_lex_le_skip(a: Seq<char>, b: Seq<char>, i: int)
    requires
        0 <= i <= a.len(),
        i <= b.len(),
        forall|k: int| 0 <= k < i ==> #[trigger] (a[k] as u32) == b[k] as u32,
    ensures
        lex_le(a, b) == lex_le(a.skip(i), b.skip(i)),
    decreases i,
{
    if i == 0 {
        assert(a.skip(0) =~= a);
        assert(b.skip(0) =~= b);
    } else {
        assert(a[0] as u32 == b[0] as u32);
        assert forall|k: int| 0 <= k < i - 1 implies #[trigger] (a.drop_first()[k] as u32)
            == b.drop_first()[k] as u32 by {
            assert(a.drop_first()[k] == a[k + 1]);
            assert(b.drop_first()[k] == b[k + 1]);
        }
        lemma_lex_le_skip(a.drop_first(), b.drop_first(), i - 1);
        assert(a.drop_first().skip(i - 1) =~= a.skip(i));
        assert(b.drop_first().skip(i - 1) =~= b.skip(i));
    }
}

/// The characters of a string, in order, as a vector.
pub fn chars_of(s: &str) -> (v: Vec<char>)
    ensures
        v@ == s@,
{
    let n = s.unicode_len();
    let mut v: Vec<char> = Vec::new();
    let mut i: usize = 0;
    while i < n
        invariant
            i <= n,
            n == s@.len(),
            v@ == s@.subrange(0, i as int),
        decreases n - i,
    {
        let c = s.get_char(i);
        v.push(c);
        proof {
            assert(v@ =~= s@.subrange(0, i as int + 1));
        }
        i += 1;
    }
    proof {
        assert(s@.subrange(0, n as int) =~= s@);
    }
    v
}

fn digit_prefix_len_vec(a: &Vec<char>) -> (p: usize)
    ensures
        p == digit_prefix_len(a@),
        p <= a@.len(),
{
    let n = a.len();
    let mut i: usize = 0;
    let mut scanning = true;
    while scanning
        invariant
            i <= n,
            n == a@.len(),
            forall|k: int| 0 <= k < i ==> is_digit_char(#[trigger] a@[k]),
            !scanning ==> i == n || !is_digit_char(a@[i as int]),
        decreases n - i + (if scanning { 1int } else { 0int }),
    {
        if i == n {
            scanning = false;
        } else {
            let cu = a[i] as u32;
            if 48 <= cu && cu <= 57 {
                i += 1;
            } else {
                scanning = false;
            }
        }
    }
    proof {
        lemma_digit_prefix_len_from_scan(a@, i as int);
    }
    i
}

/// First index within the digit prefix `[0, p)` holding a digit other
/// than `'0'`, or `p` if the whole run is zeros.
fn leading_zeros(a: &Vec<char>, p: usize) -> (z: usize)
    requires
        p <= a@.len(),
    ensures
        z <= p,
        forall|k: int| 0 <= k < z ==> digit_val(#[trigger] a@[k]) == 0,
        z < p ==> a@[z as int] as u32 != 48,
{
    let mut i: usize = 0;
    let mut scanning = true;
    while scanning
        invariant
            i <= p,
            p <= a@.len(),
            forall|k: int| 0 <= k < i ==> digit_val(#[trigger] a@[k]) == 0,
            !scanning ==> i == p || a@[i as int] as u32 != 48,
        decreases p - i + (if scanning { 1int } else { 0int }),
    {
        if i == p {
            scanning = false;
        } else {
            let cu = a[i] as u32;
            if cu == 48 {
                i += 1;
            } else {
                scanning = false;
            }
        }
    }
    i
}

/// Lexicographic comparison of two character vectors.
pub fn lex_le_exec(a: &Vec<char>, b: &Vec<char>) -> (r: bool)
    ensures
        r == lex_le(a@, b@),
{
    let mut i: usize = 0;
    loop
        invariant
            i <= a@.len(),
            i <= b@.len(),
            forall|k: int| 0 <= k < i ==> #[trigger] (a@[k] as u32) == b@[k] as u32,
        decreases a@.len() - i,
    {
        if i == a.len() {
            proof {
                lemma_lex_le_skip(a@, b@, i as int);
            }
            return true;
        }
        if i == b.len() {
            proof {
                lemma_lex_le_skip(a@, b@, i as int);
            }
            return false;
        }
        let ca = a[i] as u32;
        let cb = b[i] as u32;
        if ca != cb {
            proof {
                lemma_lex_le_skip(a@, b@, i as int);
            }
            return ca < cb;
        }
        i += 1;
    }
}

/// Numeric-prefix-aware comparison of two names given as character vectors.
pub fn name_le_exec(a: &Vec<char>, b: &Vec<char>) -> (r: bool)
    ensures
        r == name_le(a@, b@),
{
    let pa = digit_prefix_len_vec(a);
    let pb = digit_prefix_len_vec(b);
    if pa == 0 && pb == 0 {
        return lex_le_exec(a, b);
    }
    if pa == 0 {
        return true;
    }
    if pb == 0 {
        return false;
    }
    let ghost pra = a@.subrange(0, pa as int);
    let ghost prb = b@.subrange(0, pb as int);
    proof {
        lemma_digit_prefix_len_props(a@);
        lemma_digit_prefix_len_props(b@);
        assert(all_digits(pra));
        assert(all_digits(prb));
    }
    let za = leading_zeros(a, pa);
    let zb = leading_zeros(b, pb);
    let ea = pa - za;
    let eb = pb - zb;
    let ghost sa = pra.skip(za as int);
    let ghost sb = prb.skip(zb as int);
    proof {
        assert forall|k: int| 0 <= k < za implies digit_val(#[trigger] pra[k]) == 0 by {
            assert(pra[k] == a@[k]);
        }
        assert forall|k: int| 0 <= k < zb implies digit_val(#[trigger] prb[k]) == 0 by {
            assert(prb[k] == b@[k]);
        }
        lemma_digits_val_skip_zeros(pra, za as int);
        lemma_digits_val_skip_zeros(prb, zb as int);
        assert(all_digits(sa)) by {
            assert forall|k: int| 0 <= k < sa.len() implies is_digit_char(
                #[trigger] sa[k],
            ) by {
                assert(sa[k] == pra[k + za]);
            }
        }
        assert(all_digits(sb)) by {
            assert forall|k: int| 0 <= k < sb.len() implies is_digit_char(
                #[trigger] sb[k],
            ) by {
                assert(sb[k] == prb[k + zb]);
            }
        }
    }
    if ea < eb {
        proof {
            lemma_digits_val_upper(sa);
            assert(digit_val(sb[0]) >= 1) by {
                assert(sb[0] == prb[zb as int]);
                assert(prb[zb as int] == b@[zb as int]);
            }
            lemma_digits_val_lower(sb);
            lemma_pow10_mono(ea as nat, (eb - 1) as nat);
        }
        return true;
    }
    if ea > eb {
        proof {
            lemma_digits_val_upper(sb);
            assert(digit_val(sa[0]) >= 1) by {
                assert(sa[0] == pra[za as int]);
                assert(pra[za as int] == a@[za as int]);
            }
            lemma_digits_val_lower(sa);
            lemma_pow10_mono(eb as nat, (ea - 1) as nat);
        }
        return false;
    }
    if ea == 0 {
        proof {
            assert(sa =~= Seq::<char>::empty());
            assert(sb =~= Seq::<char>::empty());
        }
        return lex_le_exec(a, b);
    }
    let mut k: usize = 0;
    loop
        invariant
            k <= ea,
            ea == eb,
            ea >= 1,
            za + ea == pa,
            zb + eb == pb,
            pa <= a@.len(),
            pb <= b@.len(),
            pa == digit_prefix_len(a@),
            pb == digit_prefix_len(b@),
            pra == a@.subrange(0, pa as int),
            prb == b@.subrange(0, pb as int),
            sa == pra.skip(za as int),
            sb == prb.skip(zb as int),
            all_digits(sa),
            all_digits(sb),
            digits_val(pra) == digits_val(sa),
            digits_val(prb) == digits_val(sb),
            forall|j: int| 0 <= j < k ==> #[trigger] (sa[j] as u32) == sb[j] as u32,
        decreases ea - k,
    {
        if k == ea {
            proof {
                lemma_digits_val_congruent(sa, sb);
                assert(digits_val(pra) == digits_val(prb));
            }
            return lex_le_exec(a, b);
        }
        let ca = a[za + k] as u32;
        let cb = b[zb + k] as u32;
        proof {
            assert(sa[k as int] == a@[za + k]);
            assert(sb[k as int] == b@[zb + k]);
        }
        if ca != cb {
            proof {
                if ca < cb {
                    lemma_digits_val_lt(sa, sb, k as int);
                } else {
                    lemma_digits_val_lt(sb, sa, k as int);
                }
            }
            return ca < cb;
        }
        k += 1;
    }
}

/// Numeric-prefix-aware comparison of two names given as strings.
pub fn name_le_str(a: &str, b: &str) -> (r: bool)
    ensures
        r == name_le(a@, b@),
{
    let av = chars_of(a);
    let bv = chars_of(b);
    name_le_exec(&av, &bv)
}

} // verus!
