//! The string-keyed settings and process-state relations.
//!
//! Settings are stored as strings and typed on read: an integer setting is
//! parsed back, and a missing or unparsable value falls back to its default,
//! which is written back on first access.

use vstd::prelude::*;

use crate::derive::{chars_of, string_from_chars};
use crate::store::{NoteStore, StoreModel, kv_get, kv_set};
use crate::types::AppSettings;

verus! {

/// The value of a decimal digit character.
pub open spec fn spec_digit(c: char) -> Option<int> {
    if 48 <= c as u32 <= 57 {
        Some(c as u32 - 48)
    } else {
        None
    }
}

/// The value of an unsigned decimal numeral; `None` on anything else.
pub open spec fn spec_digits(s: Seq<char>) -> Option<int>
    decreases s.len(),
{
    if s.len() == 0 {
        None
    } else if s.len() == 1 {
        spec_digit(s[0])
    } else {
        match (spec_digits(s.drop_last()), spec_digit(s.last())) {
            (Some(a), Some(d)) => Some(10 * a + d),
            _ => None,
        }
    }
}

/// What parsing an `i64` from a string yields: an optional sign, then
/// digits, `None` on a malformed numeral or one out of the type's range.
pub open spec fn spec_parse_i64(s: Seq<char>) -> Option<int> {
    let mag = if s.len() >= 1 && (s[0] == '+' || s[0] == '-') {
        spec_digits(s.skip(1))
    } else {
        spec_digits(s)
    };
    match mag {
        Some(v) => {
            let signed = if s.len() >= 1 && s[0] == '-' {
                -v
            } else {
                v
            };
            if i64::MIN <= signed <= i64::MAX {
                Some(signed)
            } else {
                None
            }
        },
        None => None,
    }
}

proof fn lemma_digits_none(s: Seq<char>, j: int)
    requires
        0 <= j < s.len(),
        spec_digit(s[j]) is None,
    ensures
        spec_digits(s) is None,
    decreases s.len(),
{
    if s.len() > 1 {
        if j == s.len() - 1 {
        } else {
            assert(s.drop_last()[j] == s[j]);
            lemma_digits_none(s.drop_last(), j);
        }
    }
}

proof fn lemma_digits_some(s: Seq<char>)
    requires
        s.len() > 0,
        forall|j: int| 0 <= j < s.len() ==> spec_digit(s[j]) is Some,
    ensures
        spec_digits(s) is Some,
        spec_digits(s).unwrap() >= 0,
    decreases s.len(),
{
    if s.len() > 1 {
        assert(forall|j: int|
            0 <= j < s.len() - 1 ==> spec_digit(s.drop_last()[j]) == spec_digit(s[j]));
        lemma_digits_some(s.drop_last());
    }
}

/// The decimal rendering of a non-negative value.
pub open spec fn spec_render_nat(v: int) -> Seq<char>
    recommends
        v >= 0,
    decreases v,
{
    let d = if 0 <= v % 10 < 10 {
        v % 10
    } else {
        0
    };
    if v <= 9 {
        seq![spec_digit_char(if 0 <= v <= 9 { v } else { 0 })]
    } else {
        spec_render_nat(v / 10) + seq![spec_digit_char(d)]
    }
}

/// The character of a decimal digit.
pub open spec fn spec_digit_char(d: int) -> char {
    if d == 0 {
        '0'
    } else if d == 1 {
        '1'
    } else if d == 2 {
        '2'
    } else if d == 3 {
        '3'
    } else if d == 4 {
        '4'
    } else if d == 5 {
        '5'
    } else if d == 6 {
        '6'
    } else if d == 7 {
        '7'
    } else if d == 8 {
        '8'
    } else {
        '9'
    }
}

/// The decimal rendering of a signed value.
pub open spec fn spec_render_i64(v: int) -> Seq<char> {
    if v < 0 {
        seq!['-'] + spec_render_nat(-v)
    } else {
        spec_render_nat(v)
    }
}

/// Parses an `i64` the way the standard numeral parser does: an optional
/// sign, then decimal digits; anything malformed or out of range is `None`.
pub fn parse_i64(s: &str) -> (r: Option<i64>)
    ensures
        match r {
            Some(v) => spec_parse_i64(s@) == Some(v as int),
            None => spec_parse_i64(s@) is None,
        },
{
    let cs = chars_of(s);
    let n = cs.len();
    let has_sign: bool = n >= 1 && (cs[0] == '+' || cs[0] == '-');
    let neg: bool = has_sign && cs[0] == '-';
    let start: usize = if has_sign {
        1
    } else {
        0
    };
    let ghost digs = s@.skip(start as int);
    proof {
        if !has_sign {
            assert(s@.skip(0) =~= s@);
        }
    }
    if start == n {
        return None;
    }
    let mut acc: u64 = 0;
    let mut overflow: bool = false;
    let mut i: usize = start;
    while i < n
        invariant
            start <= i <= n,
            n == cs@.len(),
            cs@ == s@,
            digs == s@.skip(start as int),
            has_sign == (n >= 1 && (s@[0] == '+' || s@[0] == '-')),
            neg == (has_sign && s@[0] == '-'),
            start == (if has_sign {
                1int
            } else {
                0int
            }),
            !has_sign ==> digs == s@,
            start < n,
            forall|j: int| start <= j < i ==> spec_digit(cs@[j]) is Some,
            i > start && !overflow ==> spec_digits(s@.subrange(start as int, i as int)) == Some(
                acc as int,
            ),
            i == start ==> acc == 0 && !overflow,
            overflow ==> i > start && spec_digits(s@.subrange(start as int, i as int)) is Some
                && spec_digits(s@.subrange(start as int, i as int)).unwrap() > u64::MAX,
        decreases n - i,
    {
        let u = cs[i] as u32;
        if u < 48 || u > 57 {
            proof {
                assert(spec_digit(s@[i as int]) is None);
                assert(digs[i - start] == s@[i as int]);
                lemma_digits_none(digs, i - start);
                if start == 0 {
                    assert(s@.skip(0) =~= s@);
                }
            }
            return None;
        }
        let d: u64 = (u - 48) as u64;
        let ghost pre = s@.subrange(start as int, i as int);
        let ghost post = s@.subrange(start as int, i + 1);
        proof {
            assert(post.drop_last() =~= pre);
            assert(post.last() == s@[i as int]);
            assert(spec_digit(s@[i as int]) == Some(d as int));
            if i > start {
                lemma_digits_some(pre);
            }
        }
        if !overflow {
            if acc <= (u64::MAX - d) / 10 {
                proof {
                    assert(10 * (acc as int) + d as int <= u64::MAX) by (nonlinear_arith)
                        requires
                            acc as int <= ((u64::MAX - d) as int) / 10,
                            0 <= d as int <= 9,
                            acc >= 0,
                    ;
                }
                acc = acc * 10 + d;
                proof {
                    if i == start {
                        assert(post.len() == 1);
                        assert(spec_digits(post) == spec_digit(post[0]));
                    } else {
                        assert(spec_digits(post) == Some(10 * spec_digits(pre).unwrap() + d));
                    }
                }
            } else {
                proof {
                    assert(10 * (acc as int) + d as int > u64::MAX) by (nonlinear_arith)
                        requires
                            acc as int > ((u64::MAX - d) as int) / 10,
                            0 <= d as int <= 9,
                            acc >= 0,
                    ;
                    if i == start {
                        assert(acc == 0);
                        assert(false);
                    }
                    assert(spec_digits(post) == Some(10 * spec_digits(pre).unwrap() + d));
                }
                overflow = true;
            }
        } else {
            proof {
                let v = spec_digits(pre).unwrap();
                assert(spec_digits(post) == Some(10 * v + d));
                assert(10 * v + d > u64::MAX) by (nonlinear_arith)
                    requires
                        v > u64::MAX,
                        d >= 0,
                ;
            }
        }
        i = i + 1;
    }
    proof {
        assert(s@.subrange(start as int, n as int) =~= digs);
        if start == 0 {
            assert(s@.skip(0) =~= s@);
        }
    }
    if overflow {
        proof {
            assert(spec_digits(digs).unwrap() > u64::MAX);
            assert(u64::MAX > i64::MAX);
        }
        return None;
    }
    proof {
        assert(spec_digits(digs) == Some(acc as int));
    }
    if neg {
        if acc <= 9223372036854775808u64 {
            if acc == 0 {
                Some(0)
            } else {
                let m1: i64 = (acc - 1) as i64;
                Some(-m1 - 1)
            }
        } else {
            None
        }
    } else {
        if acc <= 9223372036854775807u64 {
            Some(acc as i64)
        } else {
            None
        }
    }
}

proof fn lemma_render_digits(v: int)
    requires
        v >= 0,
    ensures
        spec_digits(spec_render_nat(v)) == Some(v),
        spec_render_nat(v).len() >= 1,
    decreases v,
{
    if v <= 9 {
        assert(spec_digit(spec_digit_char(v)) == Some(v));
    } else {
        lemma_render_digits(v / 10);
        let r = spec_render_nat(v / 10) + seq![spec_digit_char(v % 10)];
        assert(r.drop_last() =~= spec_render_nat(v / 10));
        assert(r.last() == spec_digit_char(v % 10));
        assert(spec_digit(spec_digit_char(v % 10)) == Some(v % 10));
        assert(10 * (v / 10) + v % 10 == v);
    }
}

/// Rendering then parsing gives the value back: the written-back default
/// reads as itself.
pub proof fn lemma_render_parse(v: int)
    requires
        i64::MIN <= v <= i64::MAX,
    ensures
        spec_parse_i64(spec_render_i64(v)) == Some(v),
{
    if v < 0 {
        lemma_render_digits(-v);
        let r = seq!['-'] + spec_render_nat(-v);
        assert(r[0] == '-');
        assert(r.skip(1) =~= spec_render_nat(-v));
    } else {
        lemma_render_digits(v);
        let r = spec_render_nat(v);
        assert(r.len() >= 1);
        assert(spec_digit(r[0]) is Some) by {
            if r.len() == 1 {
                assert(spec_digits(r) == spec_digit(r[0]));
            } else {
                if spec_digit(r[0]) is None {
                    lemma_digits_none(r, 0);
                }
            }
        }
        assert(r[0] != '+' && r[0] != '-');
    }
}

/// Renders `v` in decimal.
pub fn i64_to_string(v: i64) -> (r: String)
    ensures
        r@ == spec_render_i64(v as int),
{
    let neg = v < 0;
    let mut mag: u64 = if v < 0 {
        if v == i64::MIN {
            9223372036854775808u64
        } else {
            (-v) as u64
        }
    } else {
        v as u64
    };
    let ghost v0 = mag as int;
    let mut digits: Vec<char> = Vec::new();
    let mut done: bool = false;
    while !done
        invariant
            done ==> spec_render_nat(v0) == rev_chars(digits@),
            !done ==> spec_render_nat(v0) == spec_render_nat(mag as int) + rev_chars(digits@),
        decreases mag, (if done { 0int } else { 1int }),
    {
        let d = mag % 10;
        let dc: char = digit_char(d);
        let ghost digits0 = digits@;
        digits.push(dc);
        proof {
            assert(digits@.drop_last() =~= digits0);
            assert(rev_chars(digits@) =~= seq![dc] + rev_chars(digits0));
            assert(spec_digit_char(mag as int % 10) == dc);
        }
        if mag <= 9 {
            proof {
                assert(spec_render_nat(mag as int) =~= seq![dc]);
                assert(spec_render_nat(mag as int) + rev_chars(digits0) =~= rev_chars(digits@));
            }
            done = true;
        } else {
            proof {
                assert(spec_render_nat(mag as int) == spec_render_nat(mag as int / 10) + seq![dc]);
                assert(spec_render_nat(mag as int / 10) + seq![dc] + rev_chars(digits0)
                    =~= spec_render_nat(mag as int / 10) + rev_chars(digits@));
            }
            mag = mag / 10;
        }
    }
    let mut out: Vec<char> = Vec::new();
    if neg {
        out.push('-');
    }
    let dn = digits.len();
    let mut k: usize = 0;
    let ghost head = out@;
    while k < dn
        invariant
            k <= dn,
            dn == digits@.len(),
            out@ == head + rev_chars(digits@).take(k as int),
        decreases dn - k,
    {
        proof {
            lemma_rev_chars_index(digits@, k as int);
            assert(head + rev_chars(digits@).take(k + 1) =~= (head + rev_chars(digits@).take(
                k as int,
            )).push(rev_chars(digits@)[k as int]));
        }
        out.push(digits[dn - 1 - k]);
        k = k + 1;
    }
    proof {
        lemma_rev_chars_len(digits@);
        assert(rev_chars(digits@).take(dn as int) =~= rev_chars(digits@));
        if neg {
            assert(head =~= seq!['-']);
            assert(out@ =~= spec_render_i64(v as int));
        } else {
            assert(head =~= Seq::<char>::empty());
            assert(out@ =~= spec_render_i64(v as int));
        }
    }
    string_from_chars(&out)
}

/// `s` reversed.
pub open spec fn rev_chars(s: Seq<char>) -> Seq<char>
    decreases s.len(),
{
    if s.len() == 0 {
        s
    } else {
        seq![s.last()] + rev_chars(s.drop_last())
    }
}

proof fn lemma_rev_chars_len(s: Seq<char>)
    ensures
        rev_chars(s).len() == s.len(),
    decreases s.len(),
{
    if s.len() > 0 {
        lemma_rev_chars_len(s.drop_last());
    }
}

proof fn lemma_rev_chars_index(s: Seq<char>, k: int)
    requires
        0 <= k < s.len(),
    ensures
        rev_chars(s).len() == s.len(),
        rev_chars(s)[k] == s[s.len() - 1 - k],
    decreases s.len(),
{
    lemma_rev_chars_len(s);
    if k == 0 {
    } else {
        lemma_rev_chars_index(s.drop_last(), k - 1);
        assert(rev_chars(s)[k] == rev_chars(s.drop_last())[k - 1]);
    }
}

fn digit_char(d: u64) -> (r: char)
    requires
        d <= 9,
    ensures
        r == spec_digit_char(d as int),
{
    if d == 0 {
        '0'
    } else if d == 1 {
        '1'
    } else if d == 2 {
        '2'
    } else if d == 3 {
        '3'
    } else if d == 4 {
        '4'
    } else if d == 5 {
        '5'
    } else if d == 6 {
        '6'
    } else if d == 7 {
        '7'
    } else if d == 8 {
        '8'
    } else {
        '9'
    }
}

/// What reading an integer setting does: an existing value is parsed with the
/// default as fallback; a missing one is written back as the rendered
/// default.
pub open spec fn spec_setting_i64(m: StoreModel, key: Seq<char>, default: int) -> (
    StoreModel,
    int,
) {
    if m.settings.contains_key(key) {
        (
            m,
            match spec_parse_i64(m.settings[key]) {
                Some(v) => v,
                None => default,
            },
        )
    } else {
        (StoreModel { settings: m.settings.insert(key, spec_render_i64(default)), ..m }, default)
    }
}

/// What reading a string setting does.
pub open spec fn spec_setting_str(m: StoreModel, key: Seq<char>, default: Seq<char>) -> (
    StoreModel,
    Seq<char>,
) {
    if m.settings.contains_key(key) {
        (m, m.settings[key])
    } else {
        (StoreModel { settings: m.settings.insert(key, default), ..m }, default)
    }
}

impl NoteStore {
    /// Reads an integer setting, writing the default back on first access.
    pub fn get_setting_int(&mut self, key: &str, default: i64) -> (r: i64)
        requires
            old(self).wf(),
        ensures
            final(self).wf(),
            final(self)@ == spec_setting_i64(old(self)@, key@, default as int).0,
            r as int == spec_setting_i64(old(self)@, key@, default as int).1,
    {
        let ghost m0 = self@;
        match kv_get(&self.settings, key) {
            Some(raw) => {
                match parse_i64(raw.as_str()) {
                    Some(v) => v,
                    None => default,
                }
            },
            None => {
                kv_set(&mut self.settings, String::from_str(key), i64_to_string(default));
                proof {
                    assert(self@ =~= spec_setting_i64(m0, key@, default as int).0);
                }
                default
            },
        }
    }

    /// Reads a string setting, writing the default back on first access.
    pub fn get_setting_string(&mut self, key: &str, default: &str) -> (r: String)
        requires
            old(self).wf(),
        ensures
            final(self).wf(),
            final(self)@ == spec_setting_str(old(self)@, key@, default@).0,
            r@ == spec_setting_str(old(self)@, key@, default@).1,
    {
        let ghost m0 = self@;
        match kv_get(&self.settings, key) {
            Some(raw) => raw,
            None => {
                kv_set(&mut self.settings, String::from_str(key), String::from_str(default));
                proof {
                    assert(self@ =~= spec_setting_str(m0, key@, default@).0);
                }
                String::from_str(default)
            },
        }
    }

    /// Binds a setting.
    pub fn set_setting(&mut self, key: &str, value: &str) -> (r: Result<(), crate::error::NoteError>)
        requires
            old(self).wf(),
        ensures
            final(self).wf(),
            r is Ok,
            final(self)@ == (StoreModel {
                settings: old(self)@.settings.insert(key@, value@),
                ..old(self)@
            }),
    {
        let ghost m0 = self@;
        kv_set(&mut self.settings, String::from_str(key), String::from_str(value));
        proof {
            assert(self@ =~= (StoreModel { settings: m0.settings.insert(key@, value@), ..m0 }));
        }
        Ok(())
    }

    /// The typed settings, with defaults written back where missing.
    pub fn settings_get_all(&mut self) -> (r: AppSettings)
        requires
            old(self).wf(),
        ensures
            final(self).wf(),
            ({
                let (m1, expiry) = spec_setting_i64(old(self)@, "expiry_minutes"@, 10080);
                let (m2, days) = spec_setting_i64(m1, "trash_retention_days"@, 30);
                let (m3, theme) = spec_setting_str(m2, "theme"@, "dark"@);
                final(self)@ == m3 && r.expiry_minutes as int == expiry
                    && r.trash_retention_days as int == days && r.theme@ == theme
            }),
    {
        let expiry_minutes = self.get_setting_int("expiry_minutes", 10080);
        let trash_retention_days = self.get_setting_int("trash_retention_days", 30);
        let theme = self.get_setting_string("theme", "dark");
        AppSettings { expiry_minutes, trash_retention_days, theme }
    }

    /// Binds a setting; the engine never fails this in its model.
    pub fn settings_set(&mut self, key: &str, value: &str) -> (r: Result<
        (),
        crate::error::NoteError,
    >)
        requires
            old(self).wf(),
        ensures
            final(self).wf(),
            r is Ok,
            final(self)@ == (StoreModel {
                settings: old(self)@.settings.insert(key@, value@),
                ..old(self)@
            }),
    {
        self.set_setting(key, value)
    }

    /// Every process-state binding, as key-value pairs.
    pub fn app_state_get_all(&self) -> (r: Vec<(String, String)>)
        ensures
            r@.len() == self.app_state@.len(),
            forall|i: int|
                0 <= i < r@.len() ==> r@[i].0@ == self.app_state@[i].0@ && r@[i].1@
                    == self.app_state@[i].1@,
    {
        let n = self.app_state.len();
        let mut out: Vec<(String, String)> = Vec::new();
        let mut i: usize = 0;
        while i < n
            invariant
                i <= n,
                n == self.app_state@.len(),
                out@.len() == i,
                forall|j: int|
                    0 <= j < i ==> out@[j].0@ == self.app_state@[j].0@ && out@[j].1@
                        == self.app_state@[j].1@,
            decreases n - i,
        {
            let k = self.app_state[i].0.clone();
            let v = self.app_state[i].1.clone();
            out.push((k, v));
            i = i + 1;
        }
        out
    }

    /// Binds a process-state key.
    pub fn app_state_set(&mut self, key: &str, value: &str) -> (r: Result<
        (),
        crate::error::NoteError,
    >)
        requires
            old(self).wf(),
        ensures
            final(self).wf(),
            r is Ok,
            final(self)@ == (StoreModel {
                app_state: old(self)@.app_state.insert(key@, value@),
                ..old(self)@
            }),
    {
        let ghost m0 = self@;
        kv_set(&mut self.app_state, String::from_str(key), String::from_str(value));
        proof {
            assert(self@ =~= (StoreModel { app_state: m0.app_state.insert(key@, value@), ..m0 }));
        }
        Ok(())
    }
}

} // verus!
