//! An export while ffmpeg runs: how far it is, and how it ends.

use vstd::arithmetic::mul::*;
use vstd::arithmetic::power2::*;
use vstd::prelude::*;

use crate::export::{ExportErrV, ExportError, ExportResult, FfmpegPlan};
use crate::float;
use crate::float::{single_from_int, Real};
use crate::reading;
use crate::reading::parse_i64;
use crate::text;
use crate::text::{byte_len, copy_text, int_to_text, nat_to_text, push_text, same_text, strip_start, trim};
use crate::time::TimeUs;

verus! {

/// The arguments of an export that tells how far it is: those of the plan, after
/// some that ask for the report.
pub open spec fn reporting(args: Seq<Seq<char>>) -> Seq<Seq<char>> {
    seq!["-progress"@, "pipe:1"@, "-nostats"@] + args
}

/// Makes the arguments of an export that tells how far it is.
pub fn report_args(plan: &FfmpegPlan) -> (r: Vec<String>)
    ensures
        text::texts(r@) == reporting(plan@.args),
{
    let ghost all = plan@.args;
    let mut r: Vec<String> = Vec::new();
    assert(text::texts(r@) =~= Seq::<Seq<char>>::empty());
    push_text(&mut r, copy_text("-progress"));
    push_text(&mut r, copy_text("pipe:1"));
    push_text(&mut r, copy_text("-nostats"));
    let mut i: usize = 0;
    assert(text::texts(r@) =~= reporting(all.take(0)));
    while i < plan.args.len()
        invariant
            i <= plan.args.len(),
            all == plan@.args,
            text::texts(r@) == reporting(all.take(i as int)),
        decreases plan.args.len() - i,
    {
        assert(all[i as int] == plan.args@[i as int]@);
        assert(reporting(all.take(i + 1)) =~= reporting(all.take(i as int)).push(all[i as int]));
        push_text(&mut r, plan.args[i].clone());
        i = i + 1;
    }
    assert(all.take(i as int) =~= all);
    r
}

/// How far an export is, from nothing to one, in single precision. An export of
/// no length counts as one microsecond.
pub open spec fn share(us: int, total: TimeUs) -> Real {
    float::single_of(us).over(
        float::single_of(
            if total < 1 {
                1
            } else {
                total as int
            },
        ),
    ).single().within(Real::of(0), Real::of(1))
}

/// Whatever ffmpeg reports, an export is at some share from nothing to one.
pub proof fn law_share_is_bounded(us: int, total: TimeUs)
    requires
        i64::MIN <= us <= i64::MAX,
    ensures
        Real::of(0).at_most(share(us, total)),
        share(us, total).at_most(Real::of(1)),
{
    let whole: int = if total < 1 {
        1
    } else {
        total as int
    };
    let m: nat = if us < 0 {
        (-us) as nat
    } else {
        us as nat
    };
    let q = float::unit_exponent(m, 0, 24, -149);
    let a = float::single_of(us);
    let b = float::single_of(whole);
    float::lemma_nearest_is_number(us < 0, m, false, 0);
    float::lemma_nearest_is_number(us < 0, float::round_units(m, false, q as nat), false, q);
    float::lemma_single_of_is_plain(whole);
    let n = a.mant() * pow2(118);
    float::lemma_nearest_is_number(
        a.neg() != b.neg(),
        n / b.mant(),
        n % b.mant() != 0,
        a.unit() - b.unit() - 118,
    );
    assert(!a.over(b).is_nan());
    float::lemma_single_is_number(a.over(b));
    float::lemma_nearest_is_number(false, 0, false, 0);
    float::lemma_nearest_is_number(false, 1, false, 0);
    lemma_mul_basics(pow2(53) as int);
    assert(Real::of(0).key() == 0);
}

/// Where ffmpeg has written no less, an export is no less far.
pub proof fn law_share_does_not_fall(before: int, after: int, total: TimeUs)
    requires
        i64::MIN <= before <= after <= i64::MAX,
    ensures
        share(before, total).at_most(share(after, total)),
{
    law_share_is_bounded(before, total);
    law_share_is_bounded(after, total);
    let whole: int = if total < 1 {
        1
    } else {
        total as int
    };
    let d = float::single_of(whole);
    float::lemma_single_of_is_plain(whole);
    float::lemma_single_of_order(0, whole);
    float::lemma_single_of_order(whole, whole);
    float::lemma_nearest_is_number(false, 0, false, 0);
    lemma_mul_basics(pow2(53) as int);
    if before < 0 {
        let m: nat = (-before) as nat;
        let q = float::unit_exponent(m, 0, 24, -149);
        let a = float::single_of(before);
        float::lemma_nearest_is_number(true, m, false, 0);
        float::lemma_nearest_is_number(true, float::round_units(m, false, q as nat), false, q);
        assert(a.neg());
        let n = a.mant() * pow2(118);
        float::lemma_nearest_is_number(
            true,
            n / d.mant(),
            n % d.mant() != 0,
            a.unit() - d.unit() - 118,
        );
        let x = a.over(d);
        assert(x.neg());
        float::lemma_single_is_number(x);
        float::lemma_single_sign(x);
        assert(share(before, total).key() <= 0);
    } else {
        let a = float::single_of(before);
        let b = float::single_of(after);
        float::lemma_single_of_order(before, after);
        float::lemma_single_of_order(after, after);
        float::lemma_single_of_order(0, before);
        if after > 0 {
            float::lemma_single_of_is_plain(after);
        } else {
            float::lemma_single_of_zero();
        }
        float::lemma_over_order(a, b, d);
        float::lemma_single_order(a.over(d), b.over(d));
        float::lemma_single_order(b.over(d), b.over(d));
        float::lemma_single_is_number(b.over(d));
    }
}

/// How far an export is, as a line of its report says.
pub open spec fn told(line: Seq<char>, total: TimeUs) -> Option<Real> {
    match text::without_prefix(line, "out_time_us="@) {
        None => None,
        Some(v) => match reading::whole(text::trimmed(v)) {
            Some(us) => if i64::MIN <= us <= i64::MAX {
                Some(share(us, total))
            } else {
                None
            },
            None => None,
        },
    }
}

/// Reads how far an export is from a line of its report.
pub fn read_progress(line: &str, total: TimeUs) -> (r: Option<Real>)
    ensures
        r == told(line@, total),
{
    match strip_start(line, "out_time_us=") {
        None => None,
        Some(v) => {
            let t: String = trim(v.as_str());
            match parse_i64(t.as_str()) {
                None => None,
                Some(us) => {
                    let whole: i64 = if total < 1 {
                        1
                    } else {
                        total
                    };
                    let x: Real = single_from_int(us).div(single_from_int(whole)).to_single();
                    Some(x.clamp(Real::from_int(0), Real::from_int(1)))
                },
            }
        },
    }
}

/// What to do at a line of the report.
#[derive(Debug, Clone, Copy)]
pub enum LineStep {
    /// Stop ffmpeg and delete what it wrote.
    Abort,
    /// Say how far the export is.
    Report(Real),
    /// Read on.
    Go,
}

/// Decides what to do at a line of the report: once it is cancelled, an export
/// is given up at the next line.
pub fn at_line(cancelled: bool, line: &str, total: TimeUs) -> (r: LineStep)
    ensures
        r == if cancelled {
            LineStep::Abort
        } else {
            match told(line@, total) {
                Some(x) => LineStep::Report(x),
                None => LineStep::Go,
            }
        },
{
    if cancelled {
        LineStep::Abort
    } else {
        match read_progress(line, total) {
            Some(x) => LineStep::Report(x),
            None => LineStep::Go,
        }
    }
}

/// How a program ended.
#[derive(Debug, Clone, Copy, PartialEq, Eq, Structural)]
pub enum Ending {
    Code(i32),
    Signal(i32),
    Unknown,
}

/// Where the graph stands in the arguments: after the flag that announces it.
pub open spec fn graph_bytes(args: Seq<Seq<char>>) -> nat
    decreases args.len(),
{
    if args.len() == 0 {
        0
    } else if args[0] == "-filter_complex"@ {
        if args.len() > 1 {
            text::byte_count(args[1])
        } else {
            0
        }
    } else {
        graph_bytes(args.drop_first())
    }
}

fn count_graph(args: &Vec<String>) -> (n: u128)
    ensures
        n == graph_bytes(text::texts(args@)),
{
    let ghost all = text::texts(args@);
    let mut i: usize = 0;
    assert(all.skip(0) =~= all);
    while i < args.len()
        invariant
            i <= args.len(),
            all == text::texts(args@),
            graph_bytes(all) == graph_bytes(all.skip(i as int)),
        decreases args.len() - i,
    {
        assert(all.skip(i as int)[0] == args@[i as int]@);
        assert(all.skip(i as int).drop_first() =~= all.skip(i + 1));
        if same_text(args[i].as_str(), "-filter_complex") {
            return if i + 1 < args.len() {
                assert(all.skip(i as int)[1] == args@[i + 1]@);
                byte_len(args[i + 1].as_str())
            } else {
                0
            };
        }
        i = i + 1;
    }
    0
}

/// How a program ended, in words.
pub open spec fn ended(e: Ending) -> Seq<char> {
    match e {
        Ending::Code(c) => "exit code "@ + text::int_text(c as int),
        Ending::Signal(s) => "killed by signal "@ + text::int_text(s as int) + " — a crash; the filtergraph may be too large"@,
        Ending::Unknown => "terminated abnormally"@,
    }
}

/// Why ffmpeg failed, in words: what it said or, where it said nothing, how
/// large the graph was and where the whole command can be read.
pub open spec fn failure(e: Ending, stderr: Seq<char>, args: Seq<Seq<char>>, file: Seq<char>) -> Seq<char> {
    if stderr.len() == 0 {
        ended(e) + ("; no stderr. filter_complex is "@ + text::digits(graph_bytes(args) as nat) + " bytes; full command written to "@ + file)
    } else {
        ended(e) + (":\n"@ + stderr)
    }
}

/// Describes why ffmpeg failed.
pub fn describe_failure(e: Ending, stderr: &str, args: &Vec<String>, file: &str) -> (r: String)
    ensures
        r@ == failure(e, stderr@, text::texts(args@), file@),
{
    let mut msg: String = match e {
        Ending::Code(c) => {
            let n: i64 = c as i64;
            let mut m: String = copy_text("exit code ");
            let d1: String = int_to_text(n);
            m.append(d1.as_str());
            m
        },
        Ending::Signal(s) => {
            let n: i64 = s as i64;
            let mut m: String = copy_text("killed by signal ");
            let d2: String = int_to_text(n);
            m.append(d2.as_str());
            m.append(" — a crash; the filtergraph may be too large");
            m
        },
        Ending::Unknown => copy_text("terminated abnormally"),
    };
    let said: Vec<char> = text::chars_of(stderr);
    if said.len() == 0 {
        let n: u128 = count_graph(args);
        let mut rest: String = copy_text("; no stderr. filter_complex is ");
        let d3: String = nat_to_text((n) as u128);
        rest.append(d3.as_str());
        rest.append(" bytes; full command written to ");
        rest.append(file);
        msg.append(rest.as_str());
    } else {
        let mut rest: String = copy_text(":\n");
        rest.append(stderr);
        msg.append(rest.as_str());
    }
    msg
}

/// Whether the whole command is written to a file for inspection: where ffmpeg
/// failed without a word.
pub fn keeps_command(e: Ending, stderr: &str) -> (b: bool)
    ensures
        b == (e != Ending::Code(0) && text::trimmed(stderr@).len() == 0),
{
    let said: String = trim(stderr);
    let v: Vec<char> = text::chars_of(said.as_str());
    e != Ending::Code(0) && v.len() == 0
}

/// Decides what an export came to once ffmpeg has ended: its last report, or why
/// it failed. What a cancelled one wrote is to be deleted.
pub fn at_end(cancelled: bool, e: Ending, stderr: &str, args: &Vec<String>, file: &str) -> (r: ExportResult<
    Real,
>)
    ensures
        cancelled ==> r == Err::<Real, ExportError>(ExportError::Cancelled),
        !cancelled ==> (r is Ok <==> e == Ending::Code(0)),
        r is Ok ==> r->Ok_0 == Real::of(1),
        !cancelled && e != Ending::Code(0) ==> r->Err_0@ == ExportErrV::Ffmpeg(
            failure(e, text::trimmed(stderr@), text::texts(args@), file@),
        ),
{
    if cancelled {
        return Err(ExportError::Cancelled);
    }
    if e == Ending::Code(0) {
        return Ok(Real::from_int(1));
    }
    let said: String = trim(stderr);
    Err(ExportError::Ffmpeg(describe_failure(e, said.as_str(), args, file)))
}

// ---- a whole run ----

/// What an export reports at the first lines of ffmpeg's report.
pub open spec fn reports(lines: Seq<Seq<char>>, n: nat, total: TimeUs) -> Seq<Real>
    decreases n,
{
    if n == 0 {
        Seq::<Real>::empty()
    } else {
        let before = reports(lines, (n - 1) as nat, total);
        match told(lines[n - 1], total) {
            Some(x) => before.push(x),
            None => before,
        }
    }
}

/// What an export reports that ends well: what the lines say, and that it is
/// done.
pub open spec fn all_reports(lines: Seq<Seq<char>>, total: TimeUs) -> Seq<Real> {
    reports(lines, lines.len(), total).push(Real::of(1))
}

/// The time that a line of the report tells.
pub open spec fn time_told(line: Seq<char>) -> Option<int> {
    match text::without_prefix(line, "out_time_us="@) {
        None => None,
        Some(v) => match reading::whole(text::trimmed(v)) {
            Some(us) => if i64::MIN <= us <= i64::MAX {
                Some(us)
            } else {
                None
            },
            None => None,
        },
    }
}

/// Whether the times that the lines tell do not fall.
pub open spec fn rising(lines: Seq<Seq<char>>) -> bool {
    forall|i: int, j: int|
        0 <= i <= j < lines.len() && (#[trigger] time_told(lines[i])) is Some && (
        #[trigger] time_told(lines[j])) is Some ==> time_told(lines[i])->Some_0 <= time_told(
            lines[j],
        )->Some_0
}

/// Whether one of the first lines tells how far an export is.
spec fn comes_from(lines: Seq<Seq<char>>, n: nat, total: TimeUs, x: Real) -> bool {
    exists|k: int|
        0 <= k < n && (#[trigger] time_told(lines[k])) is Some && x == share(
            time_told(lines[k])->Some_0,
            total,
        )
}

proof fn lemma_reports(lines: Seq<Seq<char>>, n: nat, total: TimeUs)
    requires
        n <= lines.len(),
        rising(lines),
    ensures
        forall|i: int|
            0 <= i < reports(lines, n, total).len() ==> comes_from(
                lines,
                n,
                total,
                #[trigger] reports(lines, n, total)[i],
            ),
        forall|i: int, j: int|
            0 <= i <= j < reports(lines, n, total).len() ==> (#[trigger] reports(
                lines,
                n,
                total,
            )[i]).at_most(#[trigger] reports(lines, n, total)[j]),
    decreases n,
{
    if n > 0 {
        let m: nat = (n - 1) as nat;
        lemma_reports(lines, m, total);
        let before = reports(lines, m, total);
        let all = reports(lines, n, total);
        let l = lines[m as int];
        if time_told(l) is Some {
            let us = time_told(l)->Some_0;
            assert(all == before.push(share(us, total)));
            assert forall|i: int| 0 <= i < all.len() implies comes_from(
                lines,
                n,
                total,
                #[trigger] all[i],
            ) by {
                if i < before.len() {
                    assert(comes_from(lines, m, total, before[i]));
                    let k = choose|k: int|
                        0 <= k < m && (#[trigger] time_told(lines[k])) is Some && before[i]
                            == share(time_told(lines[k])->Some_0, total);
                    assert(time_told(lines[k]) is Some && all[i] == before[i]);
                } else {
                    assert(time_told(lines[m as int]) is Some);
                }
            }
            assert forall|i: int, j: int| 0 <= i <= j < all.len() implies (
            #[trigger] all[i]).at_most(#[trigger] all[j]) by {
                if j < before.len() {
                    assert(before[i].at_most(before[j]));
                } else {
                    assert(comes_from(lines, n, total, all[i]));
                    let k = choose|k: int|
                        0 <= k < n && (#[trigger] time_told(lines[k])) is Some && all[i] == share(
                            time_told(lines[k])->Some_0,
                            total,
                        );
                    assert(time_told(lines[k]) is Some && time_told(lines[m as int]) is Some);
                    law_share_does_not_fall(time_told(lines[k])->Some_0, us, total);
                }
            }
        } else {
            assert(all == before);
            assert forall|i: int| 0 <= i < all.len() implies comes_from(
                lines,
                n,
                total,
                #[trigger] all[i],
            ) by {
                assert(comes_from(lines, m, total, before[i]));
                let k = choose|k: int|
                    0 <= k < m && (#[trigger] time_told(lines[k])) is Some && before[i] == share(
                        time_told(lines[k])->Some_0,
                        total,
                    );
                assert(time_told(lines[k]) is Some);
            }
        }
    }
}

/// Where the times of ffmpeg's report do not fall, neither do the reports of an
/// export that ends well: they go from nothing to one, and the last is one.
pub proof fn law_reports_rise(lines: Seq<Seq<char>>, total: TimeUs, i: int, j: int)
    requires
        rising(lines),
        0 <= i <= j < all_reports(lines, total).len(),
    ensures
        all_reports(lines, total)[i].at_most(all_reports(lines, total)[j]),
        Real::of(0).at_most(all_reports(lines, total)[i]),
        all_reports(lines, total)[j].at_most(Real::of(1)),
        all_reports(lines, total).last() == Real::of(1),
{
    let all = all_reports(lines, total);
    let told = reports(lines, lines.len(), total);
    lemma_reports(lines, lines.len(), total);
    law_share_is_bounded(0, total);
    float::lemma_nearest_is_number(false, 1, false, 0);
    if i < told.len() {
        assert(comes_from(lines, lines.len(), total, told[i]));
        let k = choose|k: int|
            0 <= k < lines.len() && (#[trigger] time_told(lines[k])) is Some && told[i] == share(
                time_told(lines[k])->Some_0,
                total,
            );
        law_share_is_bounded(time_told(lines[k])->Some_0, total);
    }
    if j < told.len() {
        assert(told[i].at_most(told[j]));
        assert(comes_from(lines, lines.len(), total, told[j]));
        let k = choose|k: int|
            0 <= k < lines.len() && (#[trigger] time_told(lines[k])) is Some && told[j] == share(
                time_told(lines[k])->Some_0,
                total,
            );
        law_share_is_bounded(time_told(lines[k])->Some_0, total);
    }
}

} // verus!
