//! The `sync` command's reporting that is not streamed through its report: the summary at the end.
use vstd::prelude::*;

use crate::paths::{FsPath, opt_spelled};
use crate::reports::diff_cmd::{push_issues, put_issue};
use crate::reports::findings::{Report, ReportV, summary_text};
use crate::text::{any_contains, any_mentions, dec, mentions, push_dec, push_spelled, put_all, utf8_lossy};

verus! {

/// How a pointer to a showstoppers file is spelled, and how many items the file holds.
pub open spec fn stoppers_view(s: Option<(FsPath, usize)>) -> Option<(Seq<u8>, usize)> {
    match s {
        Some((p, n)) => Some((p.spelled(), n)),
        None => None,
    }
}

/// The summary at the end of a sync: the counts, where the report and the showstoppers went, and
/// the issues, or where they are.
pub open spec fn sync_summary(
    r: ReportV,
    report: Option<Seq<u8>>,
    stoppers: Option<(Seq<u8>, usize)>,
    errors: Option<Seq<u8>>,
    root_in_reserve: bool,
) -> Seq<char> {
    let o1 = summary_text(r);
    let o2 = match report {
        Some(p) => o1 + "report: "@ + utf8_lossy(p) + "\n"@,
        None => o1,
    };
    let o3 = match stoppers {
        Some((p, n)) => o2 + "showstoppers: "@ + utf8_lossy(p) + "  ("@ + dec(n as nat)
            + " item(s) — paste-able remedies inside)\n"@,
        None => o2,
    };
    let o4 = if r.issues.len() > 0 {
        match errors {
            Some(p) => o3 + "issues: "@ + dec(r.issues.len()) + " — see "@ + utf8_lossy(p) + "\n"@,
            None => put_all(o3, r.issues, put_issue()),
        }
    } else {
        o3
    };
    if !root_in_reserve && any_mentions(r.issues, "Permission denied"@) {
        o4
            + "hint: permission-denied issues above — run under `sudo filesync` to let it handle restricted-access files (it drops to your user and uses root only at those walls, recording every use), or fix them manually.\n"@
    } else {
        o4
    }
}

/// The summary at the end of a sync. `report_file` and `errors_file` are the files that could be
/// written, so that issues that no file holds are shown.
pub fn summary(
    report: &Report,
    report_file: &Option<FsPath>,
    stoppers: &Option<(FsPath, usize)>,
    errors_file: &Option<FsPath>,
    elevation_available: bool,
) -> (s: String)
    ensures
        s@ == sync_summary(
            report@,
            opt_spelled(*report_file),
            stoppers_view(*stoppers),
            opt_spelled(*errors_file),
            elevation_available,
        ),
{
    let mut s = report.render();
    match report_file {
        Some(p) => {
            s.append("report: ");
            push_spelled(&mut s, p);
            s.append("\n");
        },
        None => {},
    }
    match stoppers {
        Some((p, n)) => {
            s.append("showstoppers: ");
            push_spelled(&mut s, p);
            s.append("  (");
            push_dec(&mut s, *n as u64);
            s.append(" item(s) — paste-able remedies inside)\n");
        },
        None => {},
    }
    if report.issues.len() > 0 {
        match errors_file {
            Some(p) => {
                s.append("issues: ");
                push_dec(&mut s, report.issues.len() as u64);
                s.append(" — see ");
                push_spelled(&mut s, p);
                s.append("\n");
            },
            None => {
                push_issues(&mut s, &report.issues);
            },
        }
    }
    if !elevation_available && any_contains(&report.issues, "Permission denied") {
        s.append("hint: permission-denied issues above — run under `sudo filesync` to let it handle restricted-access files (it drops to your user and uses root only at those walls, recording every use), or fix them manually.\n");
    }
    s
}

// ── laws ─────────────────────────────────────────────────────────────────────

/// The closing summary ends in a hint exactly where some issue mentions a denied permission and root is
/// not in reserve; in all else the reserve makes no difference.
pub proof fn a_hint_is_given_where_root_would_help(
    r: ReportV,
    report: Option<Seq<u8>>,
    stoppers: Option<(Seq<u8>, usize)>,
    errors: Option<Seq<u8>>,
)
    ensures
        (exists|i: int| 0 <= i < r.issues.len() && mentions(#[trigger] r.issues[i], "Permission denied"@))
            ==> sync_summary(r, report, stoppers, errors, false) == sync_summary(r, report, stoppers, errors, true)
            + "hint: permission-denied issues above — run under `sudo filesync` to let it handle restricted-access files (it drops to your user and uses root only at those walls, recording every use), or fix them manually.\n"@,
        !(exists|i: int| 0 <= i < r.issues.len() && mentions(#[trigger] r.issues[i], "Permission denied"@))
            ==> sync_summary(r, report, stoppers, errors, false) == sync_summary(r, report, stoppers, errors, true),
{
}

/// The closing summary is the report's own, and behind it stand a line for the report, one for the
/// showstoppers and one for the errors file, each where there is one to point to.
pub proof fn a_summary_points_to_its_files(
    r: ReportV,
    report: Seq<u8>,
    stoppers: (Seq<u8>, usize),
    errors: Seq<u8>,
)
    ensures
        r.issues.len() == 0 ==> sync_summary(r, None, None, Some(errors), true) == summary_text(r),
        r.issues.len() == 0 ==> sync_summary(r, Some(report), None, Some(errors), true) == summary_text(r)
            + "report: "@ + utf8_lossy(report) + "\n"@,
        r.issues.len() == 0 ==> sync_summary(r, None, Some(stoppers), Some(errors), true) == summary_text(r)
            + "showstoppers: "@ + utf8_lossy(stoppers.0) + "  ("@ + dec(stoppers.1 as nat)
            + " item(s) — paste-able remedies inside)\n"@,
        r.issues.len() > 0 ==> sync_summary(r, None, None, Some(errors), true) == summary_text(r) + "issues: "@ + dec(
            r.issues.len(),
        ) + " — see "@ + utf8_lossy(errors) + "\n"@,
        r.issues.len() > 0 ==> sync_summary(r, None, None, None, true) == put_all(summary_text(r), r.issues, put_issue()),
        r.issues.len() > 0 ==> sync_summary(r, Some(report), Some(stoppers), Some(errors), true) == summary_text(r)
            + "report: "@ + utf8_lossy(report) + "\n"@ + "showstoppers: "@ + utf8_lossy(stoppers.0) + "  ("@ + dec(
            stoppers.1 as nat,
        ) + " item(s) — paste-able remedies inside)\n"@ + "issues: "@ + dec(r.issues.len()) + " — see "@ + utf8_lossy(
            errors,
        ) + "\n"@,
{
}

} // verus!
