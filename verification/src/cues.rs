//! Spoken cues: the script handed to the Windows speech engine.
//!
//! The speech engine runs outside this crate (a PowerShell process over
//! System.Speech); this module builds the exact script text it is given, so
//! the rules for blank text, rate limits, voice choice and quoting are checked
//! here.

use vstd::prelude::*;

use crate::text::trimmed;

verus! {

/// One installed system voice.
#[derive(Clone, Debug, PartialEq, Eq)]
pub struct VoiceInfo {
    /// Selector passed to the speech engine: the voice's name.
    pub id: String,
    /// UI label. May equal `id`.
    pub name: String,
}

/// The Windows speech engine, driven through PowerShell.
#[derive(Clone, Copy, Debug, PartialEq, Eq)]
pub struct SapiSynth;

impl Default for SapiSynth {
    fn default() -> (r: SapiSynth)
        ensures
            r == SapiSynth,
    {
        SapiSynth::new()
    }
}

/// `c` as it must appear inside a PowerShell single-quoted literal.
pub open spec fn ps_escaped_char(c: char) -> Seq<char> {
    if c == '\'' {
        seq!['\'', '\'']
    } else {
        seq![c]
    }
}

/// `s` escaped for a PowerShell single-quoted literal: every apostrophe doubled.
pub open spec fn ps_escaped(s: Seq<char>) -> Seq<char>
    decreases s.len(),
{
    if s.len() == 0 {
        Seq::empty()
    } else {
        ps_escaped_char(s[0]) + ps_escaped(s.drop_first())
    }
}

/// The body of a PowerShell single-quoted literal read back: each doubled
/// apostrophe stands for one.
pub open spec fn ps_unescaped(s: Seq<char>) -> Seq<char>
    decreases s.len(),
{
    if s.len() >= 2 && s[0] == '\'' && s[1] == '\'' {
        seq!['\''] + ps_unescaped(s.skip(2))
    } else if s.len() == 0 {
        Seq::empty()
    } else {
        seq![s[0]] + ps_unescaped(s.drop_first())
    }
}

proof fn lemma_ps_escaped_concat(a: Seq<char>, b: Seq<char>)
    ensures
        ps_escaped(a + b) == ps_escaped(a) + ps_escaped(b),
    decreases a.len(),
{
    if a.len() == 0 {
        assert(a + b =~= b);
    } else {
        assert((a + b).drop_first() =~= a.drop_first() + b);
        lemma_ps_escaped_concat(a.drop_first(), b);
        assert((a + b)[0] == a[0]);
    }
}

/// Escaping is undone by reading the literal back: PowerShell sees exactly
/// the text that was escaped.
pub proof fn lemma_ps_escape_round_trip(s: Seq<char>)
    ensures
        ps_unescaped(ps_escaped(s)) == s,
    decreases s.len(),
{
    if s.len() > 0 {
        lemma_ps_escape_round_trip(s.drop_first());
        let e = ps_escaped(s);
        let rest = ps_escaped(s.drop_first());
        if s[0] == '\'' {
            assert(e =~= seq!['\'', '\''] + rest);
            assert(e.skip(2) =~= rest);
        } else {
            assert(e =~= seq![s[0]] + rest);
            assert(e.drop_first() =~= rest);
        }
        assert(s =~= seq![s[0]] + s.drop_first());
    }
}

/// Escape for a PowerShell single-quoted literal: double the apostrophe.
pub fn ps_escape(s: &str) -> (r: String)
    ensures
        r@ == ps_escaped(s@),
{
    proof {
        reveal_strlit("''");
    }
    let n = s.unicode_len();
    let mut r = String::new();
    let mut i: usize = 0;
    while i < n
        invariant
            n == s@.len(),
            i <= n,
            r@ == ps_escaped(s@.take(i as int)),
        decreases n - i,
    {
        let c = s.get_char(i);
        proof {
            assert(s@.take(i + 1) =~= s@.take(i as int) + seq![c]);
            lemma_ps_escaped_concat(s@.take(i as int), seq![c]);
            assert(seq![c].drop_first() =~= Seq::<char>::empty());
            assert(seq![c][0] == c);
            assert(ps_escaped(seq![c].drop_first()) == Seq::<char>::empty());
            assert(ps_escaped_char(c) + Seq::<char>::empty() =~= ps_escaped_char(c));
            assert(ps_escaped(seq![c]) =~= ps_escaped_char(c));
        }
        if c == '\'' {
            proof {
                reveal_strlit("''");
                assert("''"@.len() == 2);
                assert("''"@[0] == '\'' && "''"@[1] == '\'');
                assert("''"@ =~= ps_escaped_char(c));
            }
            r.append("''");
        } else {
            let one = s.substring_char(i, i + 1);
            proof {
                assert(one@ =~= seq![c]);
            }
            r.append(one);
        }
        i += 1;
    }
    proof {
        assert(s@.take(n as int) =~= s@);
    }
    r
}

/// The speech engine's rate scale, -10..10: `rate` clamped into it.
pub open spec fn clamped_rate(rate: i32) -> int {
    if rate < -10 {
        -10
    } else if rate > 10 {
        10
    } else {
        rate as int
    }
}

/// Decimal digit `d` (0..9) as a character.
pub open spec fn digit_char(d: int) -> char {
    seq!['0', '1', '2', '3', '4', '5', '6', '7', '8', '9'][d]
}

/// Decimal digits of a natural number, most significant first.
pub open spec fn nat_decimal(n: nat) -> Seq<char>
    decreases n,
{
    if n < 10 {
        seq![digit_char(n as int)]
    } else {
        nat_decimal(n / 10).push(digit_char((n % 10) as int))
    }
}

/// Decimal text of an integer, with a leading `-` when negative.
pub open spec fn int_decimal(n: int) -> Seq<char> {
    if n < 0 {
        seq!['-'] + nat_decimal((-n) as nat)
    } else {
        nat_decimal(n as nat)
    }
}

/// Value of a string of decimal digits, most significant first: each
/// character `d` counts as the number `d - '0'`.
pub open spec fn digits_value(s: Seq<char>) -> int
    decreases s.len(),
{
    if s.len() == 0 {
        0
    } else {
        digits_value(s.drop_last()) * 10 + ((s.last() as u32) as int - ('0' as u32) as int)
    }
}

/// A base-10 numeral: at least one of the characters `0`..`9`, with no leading
/// zero unless it is the single digit `0`.
pub open spec fn is_numeral(s: Seq<char>) -> bool {
    &&& s.len() > 0
    &&& forall|i: int| 0 <= i < s.len() ==> '0' <= #[trigger] s[i] && s[i] <= '9'
    &&& s.len() > 1 ==> s[0] != '0'
}

proof fn lemma_digit_char(d: int)
    requires
        0 <= d < 10,
    ensures
        (digit_char(d) as u32) as int == ('0' as u32) as int + d,
        '0' <= digit_char(d) && digit_char(d) <= '9',
        d > 0 ==> digit_char(d) != '0',
{
    let t = seq!['0', '1', '2', '3', '4', '5', '6', '7', '8', '9'];
    assert(t[0] == '0' && t[1] == '1' && t[2] == '2' && t[3] == '3' && t[4] == '4');
    assert(t[5] == '5' && t[6] == '6' && t[7] == '7' && t[8] == '8' && t[9] == '9');
}

/// The decimal digits written for a natural number form its usual base-10
/// numeral: they read back as the number, and there is no leading zero.
pub proof fn lemma_nat_decimal_reads_back(n: nat)
    ensures
        is_numeral(nat_decimal(n)),
        digits_value(nat_decimal(n)) == n,
        n > 0 ==> nat_decimal(n)[0] != '0',
    decreases n,
{
    let s = nat_decimal(n);
    if n < 10 {
        lemma_digit_char(n as int);
        assert(s.drop_last() =~= Seq::<char>::empty());
        assert(digits_value(s.drop_last()) == 0);
        assert(s.last() == digit_char(n as int));
    } else {
        let q = (n / 10) as nat;
        let d = (n % 10) as int;
        lemma_nat_decimal_reads_back(q);
        lemma_digit_char(d);
        let p = nat_decimal(q);
        assert(s == p.push(digit_char(d)));
        assert(s.drop_last() =~= p);
        assert(s[0] == p[0]);
        assert(n == q * 10 + d) by (nonlinear_arith)
            requires
                q == n / 10,
                d == n % 10,
        ;
        assert(s.last() == digit_char(d));
        assert(digits_value(s) == digits_value(p) * 10 + ((digit_char(d) as u32) as int - ('0' as u32) as int));
        assert forall|i: int| 0 <= i < s.len() implies '0' <= #[trigger] s[i] && s[i] <= '9' by {
            if i < p.len() {
                assert(s[i] == p[i]);
            }
        }
    }
}

/// The number a signed numeral reads as: a leading `-` negates the digits
/// that follow it.
pub open spec fn signed_numeral_value(t: Seq<char>) -> int {
    if t.len() > 0 && t[0] == '-' {
        -digits_value(t.drop_first())
    } else {
        digits_value(t)
    }
}

/// The rate written into the speech script is the clamped rate in decimal:
/// the rate is clamped into -10..10 (a rate already in range is kept, one
/// below is raised to -10, one above is lowered to 10), and the text written
/// after "$s.Rate = " is a base-10 numeral, with `-` before it when negative,
/// that reads back as the clamped rate. So rate 3 is written "3" and rate -3
/// is written "-3".
pub proof fn lemma_rate_written_in_decimal(rate: i32)
    ensures
        -10 <= clamped_rate(rate) <= 10,
        -10 <= rate <= 10 ==> clamped_rate(rate) == rate,
        rate < -10 ==> clamped_rate(rate) == -10,
        rate > 10 ==> clamped_rate(rate) == 10,
        signed_numeral_value(int_decimal(clamped_rate(rate))) == clamped_rate(rate),
        clamped_rate(rate) >= 0 ==> is_numeral(int_decimal(clamped_rate(rate))),
        clamped_rate(rate) < 0 ==> int_decimal(clamped_rate(rate))[0] == '-' && is_numeral(
            int_decimal(clamped_rate(rate)).drop_first(),
        ),
{
    let v = clamped_rate(rate);
    if v < 0 {
        let m = (-v) as nat;
        lemma_nat_decimal_reads_back(m);
        let t = int_decimal(v);
        assert(t == seq!['-'] + nat_decimal(m));
        assert(t.drop_first() =~= nat_decimal(m));
    } else {
        lemma_nat_decimal_reads_back(v as nat);
        lemma_digit_char(0);
        let t = nat_decimal(v as nat);
        assert(t.len() > 0);
        assert(t[0] != '-');
    }
}

/// The `$s.SelectVoice(...)` statement for a chosen voice; nothing when no
/// voice, or only whitespace, is given.
pub open spec fn voice_line_of(voice: Option<Seq<char>>) -> Seq<char> {
    match voice {
        Some(v) => if trimmed(v).len() > 0 {
            "$s.SelectVoice('"@ + ps_escaped(v) + "');"@
        } else {
            Seq::empty()
        },
        None => Seq::empty(),
    }
}

/// Script that speaks the text read from standard input into the wave file
/// `out_path`, at the clamped `rate`, with the chosen voice if any.
pub open spec fn speak_script_of(rate: i32, voice: Option<Seq<char>>, out_path: Seq<char>) -> Seq<char> {
    "Add-Type -AssemblyName System.Speech | Out-Null; $s = New-Object System.Speech.Synthesis.SpeechSynthesizer; $s.Rate = "@
        + int_decimal(clamped_rate(rate)) + "; "@ + voice_line_of(voice)
        + " $s.SetOutputToWaveFile('"@ + ps_escaped(out_path)
        + "'); $reader = New-Object System.IO.StreamReader([Console]::OpenStandardInput(), [System.Text.Encoding]::UTF8); $text = $reader.ReadToEnd(); $s.Speak($text); $s.Dispose()"@
}

/// The speech script sets the engine's rate: at position `p` it holds
/// "$s.Rate = ", then the decimal numeral of the clamped rate (which reads back
/// as that rate, see `lemma_rate_written_in_decimal`), then `;`.
pub proof fn lemma_script_sets_rate(rate: i32, voice: Option<Seq<char>>, out_path: Seq<char>) -> (p: int)
    ensures
        10 <= p,
        p + int_decimal(clamped_rate(rate)).len() < speak_script_of(rate, voice, out_path).len(),
        speak_script_of(rate, voice, out_path).subrange(p - 10, p) == seq!['$', 's', '.', 'R', 'a', 't', 'e', ' ', '=', ' '],
        speak_script_of(rate, voice, out_path).subrange(p, p + int_decimal(clamped_rate(rate)).len())
            == int_decimal(clamped_rate(rate)),
        speak_script_of(rate, voice, out_path)[p + int_decimal(clamped_rate(rate)).len()] == ';',
{
    reveal_strlit(
        "Add-Type -AssemblyName System.Speech | Out-Null; $s = New-Object System.Speech.Synthesis.SpeechSynthesizer; $s.Rate = ",
    );
    reveal_strlit("; ");
    let pre = "Add-Type -AssemblyName System.Speech | Out-Null; $s = New-Object System.Speech.Synthesis.SpeechSynthesizer; $s.Rate = "@;
    let t = int_decimal(clamped_rate(rate));
    let rest = voice_line_of(voice) + " $s.SetOutputToWaveFile('"@ + ps_escaped(out_path)
        + "'); $reader = New-Object System.IO.StreamReader([Console]::OpenStandardInput(), [System.Text.Encoding]::UTF8); $text = $reader.ReadToEnd(); $s.Speak($text); $s.Dispose()"@;
    let s = speak_script_of(rate, voice, out_path);
    let p = pre.len() as int;
    assert(s =~= pre + t + "; "@ + rest);
    assert(s.subrange(p - 10, p) =~= pre.subrange(p - 10, p));
    assert(pre.subrange(p - 10, p) =~= seq!['$', 's', '.', 'R', 'a', 't', 'e', ' ', '=', ' ']);
    assert(s.subrange(p, p + t.len()) =~= t);
    assert(s[p + t.len()] == "; "@[0]);
    p
}

/// Decimal text of a rate within -10..10.
fn rate_text(rate: i32) -> (r: String)
    requires
        -10 <= rate <= 10,
    ensures
        r@ == int_decimal(rate as int),
{
    proof {
        reveal_strlit("0123456789");
        reveal_strlit("-");
        reveal_strlit("10");
    }
    let digits = "0123456789";
    let mut r = String::new();
    let mag: usize = if rate < 0 {
        r.append("-");
        (0 - rate) as usize
    } else {
        rate as usize
    };
    if mag == 10 {
        r.append("10");
        proof {
            assert(nat_decimal(10) =~= nat_decimal(1).push(digit_char(0)));
            assert(nat_decimal(10) =~= "10"@);
        }
    } else {
        let d = digits.substring_char(mag, mag + 1);
        proof {
            assert(d@ =~= seq![digit_char(mag as int)]);
        }
        r.append(d);
    }
    proof {
        if rate < 0 {
            assert(r@ =~= seq!['-'] + nat_decimal(mag as nat));
        }
    }
    r
}

impl SapiSynth {
    pub fn new() -> (r: SapiSynth)
        ensures
            r == SapiSynth,
    {
        SapiSynth
    }

    /// The PowerShell script that renders `text` to the wave file `out_path`.
    /// The text itself goes to the script's standard input, to dodge quoting
    /// pitfalls. Blank text (empty or only whitespace) is refused with
    /// "nothing to speak".
    pub fn speak_script(&self, text: &str, voice: Option<&str>, rate: i32, out_path: &str) -> (r: Result<
        String,
        String,
    >)
        ensures
            trimmed(text@).len() == 0 <==> r is Err,
            r matches Err(e) ==> e@ == "nothing to speak"@,
            r matches Ok(s) ==> s@ == speak_script_of(
                rate,
                match voice {
                    Some(v) => Some(v@),
                    None => None,
                },
                out_path@,
            ),
    {
        if crate::text::is_blank(text) {
            return Err(String::from_str("nothing to speak"));
        }
        let rate = if rate < -10 {
            -10
        } else if rate > 10 {
            10
        } else {
            rate
        };
        let out = ps_escape(out_path);
        let mut script = String::from_str(
            "Add-Type -AssemblyName System.Speech | Out-Null; $s = New-Object System.Speech.Synthesis.SpeechSynthesizer; $s.Rate = ",
        );
        let rt = rate_text(rate);
        script.append(rt.as_str());
        script.append("; ");
        match voice {
            Some(v) => {
                if !crate::text::is_blank(v) {
                    let escaped = ps_escape(v);
                    script.append("$s.SelectVoice('");
                    script.append(escaped.as_str());
                    script.append("');");
                }
            },
            None => {},
        }
        script.append(" $s.SetOutputToWaveFile('");
        script.append(out.as_str());
        script.append(
            "'); $reader = New-Object System.IO.StreamReader([Console]::OpenStandardInput(), [System.Text.Encoding]::UTF8); $text = $reader.ReadToEnd(); $s.Speak($text); $s.Dispose()",
        );
        proof {
            let vv = match voice {
                Some(v) => Some(v@),
                None => None,
            };
            assert(script@ =~= speak_script_of(rate, vv, out_path@));
        }
        Ok(script)
    }
}

} // verus!
