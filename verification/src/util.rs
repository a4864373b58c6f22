//! Human-readable value formatting and the autocomplete provider.
use crate::process::{entry_label, spec_entry_label, ProcessRecord};
use crate::text::{
    lower_of, lowercase, spec_dec, spec_dec_i32, spec_starts_with, starts_with_chars,
    digit_char, i32_to_string, u64_to_string,
};
use vstd::prelude::*;

verus! {

/// A byte count to be rendered in the largest fitting unit.
pub struct ByteSize(pub u64);

/// A duration in milliseconds to be rendered in its largest nonzero
/// unit.
pub struct TimeFormat(pub u64);

/// A count of hundredths rendered with two decimal places, followed by
/// a unit suffix: `<whole>.<two digits><suffix>`.
pub open spec fn spec_render_hundredths(scaled: nat, suffix: Seq<char>) -> Seq<char> {
    spec_dec(scaled / 100) + "."@ + seq![
        digit_char(((scaled / 10) % 10) as int),
        digit_char((scaled % 10) as int),
    ] + suffix
}

/// `num / d` rounded to the nearest whole number, with a tie going to
/// the even neighbour, as two-decimal float formatting rounds an exact
/// half.
pub open spec fn spec_div_round_even(num: nat, d: nat) -> nat {
    let q = num / d;
    let r = num % d;
    if 2 * r > d || (2 * r == d && q % 2 == 1) {
        q + 1
    } else {
        q
    }
}

/// A byte count rendered in the largest unit among B, KB, MB, GB, TB
/// that keeps the value below 1024 (TB values may exceed it), with two
/// decimal places, rounded to the nearest hundredth, ties to even.
pub open spec fn spec_format_bytes(n: nat) -> Seq<char> {
    if n < 1024 {
        spec_render_hundredths(n * 100, " B"@)
    } else if n < 1048576 {
        spec_render_hundredths(spec_div_round_even(n * 100, 1024), " KB"@)
    } else if n < 1073741824 {
        spec_render_hundredths(spec_div_round_even(n * 100, 1048576), " MB"@)
    } else if n < 1099511627776 {
        spec_render_hundredths(spec_div_round_even(n * 100, 1073741824), " GB"@)
    } else {
        spec_render_hundredths(spec_div_round_even(n * 100, 1099511627776), " TB"@)
    }
}

/// Divides and rounds to the nearest whole number, ties to even.
fn div_round_even(num: u64, d: u64) -> (r: u64)
    requires
        2 <= d <= 0x100_0000_0000,
    ensures
        r as nat == spec_div_round_even(num as nat, d as nat),
{
    let q = num / d;
    let rem = num % d;
    if 2 * rem > d || (2 * rem == d && q % 2 == 1) {
        proof {
            vstd::arithmetic::div_mod::lemma_fundamental_div_mod(num as int, d as int);
            assert(rem >= 1);
            assert(2 * (q as int) <= (d as int) * (q as int)) by (nonlinear_arith)
                requires
                    d >= 2,
                    q >= 0,
            ;
            assert(q < 0xFFFF_FFFF_FFFF_FFFFu64);
        }
        q + 1
    } else {
        q
    }
}

/// Renders `scaled` hundredths with two decimal places and the suffix.
fn render_hundredths(scaled: u64, suffix: &str) -> (r: String)
    ensures
        r@ == spec_render_hundredths(scaled as nat, suffix@),
{
    let mut s = u64_to_string(scaled / 100);
    s.append(".");
    s.append(crate::text::digit_str((scaled / 10) % 10));
    s.append(crate::text::digit_str(scaled % 10));
    s.append(suffix);
    proof {
        reveal_strlit(".");
        assert(s@ =~= spec_render_hundredths(scaled as nat, suffix@));
    }
    s
}

impl ByteSize {
    /// Renders the byte count as `spec_format_bytes` describes.
    pub fn format(&self) -> (r: String)
        ensures
            r@ == spec_format_bytes(self.0 as nat),
    {
        let n = self.0;
        if n < 1024 {
            render_hundredths(n * 100, " B")
        } else if n < 1048576 {
            render_hundredths(div_round_even(n * 100, 1024), " KB")
        } else if n < 1073741824 {
            render_hundredths(div_round_even(n * 100, 1048576), " MB")
        } else if n < 1099511627776 {
            render_hundredths(div_round_even(n * 100, 1073741824), " GB")
        } else {
            let num: u128 = (n as u128) * 100;
            let q: u128 = num / 1099511627776;
            let rem: u128 = num % 1099511627776;
            let w: u128 = if 2 * rem > 1099511627776 || (2 * rem == 1099511627776 && q % 2 == 1) {
                q + 1
            } else {
                q
            };
            proof {
                assert(w as nat == spec_div_round_even((n as nat) * 100, 1099511627776));
                assert(w <= 0xFFFF_FFFF_FFFF_FFFFu128);
            }
            render_hundredths(w as u64, " TB")
        }
    }
}

/// A duration in milliseconds rendered as its single largest nonzero
/// unit: whole days, else whole hours, else whole minutes, else whole
/// seconds.
pub open spec fn spec_format_duration(ms: nat) -> Seq<char> {
    let s = ms / 1000;
    let m = s / 60;
    let h = m / 60;
    let d = h / 24;
    if d > 0 {
        spec_dec(d) + "d"@
    } else if h > 0 {
        spec_dec(h) + "h"@
    } else if m > 0 {
        spec_dec(m) + "m"@
    } else {
        spec_dec(s) + "s"@
    }
}

impl TimeFormat {
    /// Renders the duration as `spec_format_duration` describes.
    pub fn format(&self) -> (r: String)
        ensures
            r@ == spec_format_duration(self.0 as nat),
    {
        let seconds = self.0 / 1000;
        let minutes = seconds / 60;
        let hours = minutes / 60;
        let days = hours / 24;
        if days > 0 {
            let mut s = u64_to_string(days);
            s.append("d");
            proof {
                reveal_strlit("d");
                assert(s@ =~= spec_format_duration(self.0 as nat));
            }
            s
        } else if hours > 0 {
            let mut s = u64_to_string(hours);
            s.append("h");
            proof {
                reveal_strlit("h");
                assert(s@ =~= spec_format_duration(self.0 as nat));
            }
            s
        } else if minutes > 0 {
            let mut s = u64_to_string(minutes);
            s.append("m");
            proof {
                reveal_strlit("m");
                assert(s@ =~= spec_format_duration(self.0 as nat));
            }
            s
        } else {
            let mut s = u64_to_string(seconds);
            s.append("s");
            proof {
                reveal_strlit("s");
                assert(s@ =~= spec_format_duration(self.0 as nat));
            }
            s
        }
    }
}

/// Suggests completions over the snapshot by prefix, independently of
/// scoring: no threshold, no limit, snapshot order.
pub struct ProcessCompleter {
    pub processes: Vec<ProcessRecord>,
}

/// Whether a record is suggested for the typed text: its lowercased
/// name starts with the lowercased text, or its decimal pid starts
/// with the text as typed.
pub open spec fn spec_suggested(line: Seq<char>, rec: ProcessRecord) -> bool {
    spec_starts_with(lower_of(rec.name@), lower_of(line)) || spec_starts_with(
        spec_dec_i32(rec.pid as int),
        line,
    )
}

/// The display labels of the suggested records, in snapshot order.
pub open spec fn spec_completions(line: Seq<char>, procs: Seq<ProcessRecord>) -> Seq<Seq<char>>
    decreases procs.len(),
{
    if procs.len() == 0 {
        Seq::empty()
    } else {
        let rest = spec_completions(line, procs.drop_first());
        if spec_suggested(line, procs[0]) {
            seq![spec_entry_label(procs[0].pid as int, procs[0].name@)] + rest
        } else {
            rest
        }
    }
}

/// Whether `v` is the label of some suggested record of the index.
pub open spec fn completion_comes_from(
    line: Seq<char>,
    procs: Seq<ProcessRecord>,
    v: Seq<char>,
) -> bool {
    exists|i: int|
        0 <= i < procs.len() && spec_suggested(line, #[trigger] procs[i]) && v == spec_entry_label(
            procs[i].pid as int,
            procs[i].name@,
        )
}

/// Every completion is the label of a suggested record of the index:
/// the returned set is drawn from the snapshot, and each entry's
/// record matched the typed prefix.
pub proof fn lemma_completions_from_index(line: Seq<char>, procs: Seq<ProcessRecord>)
    ensures
        forall|k: int|
            0 <= k < spec_completions(line, procs).len() ==> completion_comes_from(
                line,
                procs,
                #[trigger] spec_completions(line, procs)[k],
            ),
    decreases procs.len(),
{
    if procs.len() == 0 {
    } else {
        lemma_completions_from_index(line, procs.drop_first());
        let rest = spec_completions(line, procs.drop_first());
        let whole = spec_completions(line, procs);
        assert forall|k: int| 0 <= k < whole.len() implies completion_comes_from(
            line,
            procs,
            #[trigger] whole[k],
        ) by {
            if spec_suggested(line, procs[0]) && k == 0 {
                assert(spec_suggested(line, procs[0]));
                assert(whole[0] == spec_entry_label(procs[0].pid as int, procs[0].name@));
            } else {
                let kr: int = if spec_suggested(line, procs[0]) {
                    k - 1
                } else {
                    k
                };
                assert(whole[k] == rest[kr]);
                assert(completion_comes_from(line, procs.drop_first(), rest[kr]));
                let i0 = choose|i: int|
                    0 <= i < procs.drop_first().len() && spec_suggested(
                        line,
                        #[trigger] procs.drop_first()[i],
                    ) && rest[kr] == spec_entry_label(
                        procs.drop_first()[i].pid as int,
                        procs.drop_first()[i].name@,
                    );
                assert(procs.drop_first()[i0] == procs[i0 + 1]);
                assert(spec_suggested(line, procs[i0 + 1]));
                assert(whole[k] == spec_entry_label(procs[i0 + 1].pid as int, procs[i0 + 1].name@));
            }
        }
    }
}

impl ProcessCompleter {
    /// Returns the display label of every record whose lowercased name
    /// starts with the lowercased typed text, or whose decimal pid
    /// starts with the text as typed, in snapshot order.
    pub fn complete(&self, line: &str) -> (r: Vec<String>)
        ensures
            r.deep_view() == spec_completions(line@, self.processes@),
    {
        let line_lower = lowercase(line);
        let n = self.processes.len();
        let mut r: Vec<String> = Vec::new();
        let mut i: usize = 0;
        proof {
            assert(self.processes@.skip(0) =~= self.processes@);
            assert(r.deep_view() + spec_completions(line@, self.processes@) =~= spec_completions(
                line@,
                self.processes@,
            ));
        }
        while i < n
            invariant
                i <= n,
                n == self.processes@.len(),
                line_lower@ == lower_of(line@),
                spec_completions(line@, self.processes@) == r.deep_view() + spec_completions(
                    line@,
                    self.processes@.skip(i as int),
                ),
            decreases n - i,
        {
            let ghost ps = self.processes@.skip(i as int);
            proof {
                assert(ps[0] == self.processes@[i as int]);
                assert(ps.drop_first() =~= self.processes@.skip(i + 1));
            }
            let rec = &self.processes[i];
            let name_lower = lowercase(rec.name.as_str());
            let pid_string = i32_to_string(rec.pid);
            let hit = starts_with_chars(name_lower.as_str(), line_lower.as_str())
                || starts_with_chars(pid_string.as_str(), line);
            proof {
                assert(hit == spec_suggested(line@, ps[0]));
            }
            if hit {
                let label = entry_label(rec.pid, rec.name.as_str());
                r.push(label);
                proof {
                    assert(r.deep_view() =~= r.deep_view().drop_last().push(
                        spec_entry_label(ps[0].pid as int, ps[0].name@),
                    ));
                    assert(r.deep_view() + spec_completions(line@, self.processes@.skip(i + 1))
                        =~= r.deep_view().drop_last() + (seq![
                        spec_entry_label(ps[0].pid as int, ps[0].name@),
                    ] + spec_completions(line@, ps.drop_first())));
                }
            }
            i += 1;
        }
        proof {
            assert(self.processes@.skip(n as int) =~= Seq::<ProcessRecord>::empty());
            assert(r.deep_view() + Seq::<Seq<char>>::empty() =~= r.deep_view());
        }
        r
    }
}

} // verus!
