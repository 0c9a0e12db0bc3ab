//! What live progress shows: counters and the texts made of them. Drawing them is up to the
//! terminal.
use vstd::prelude::*;

use crate::text::{dec, opt_text, push_dec};
use crate::units::{GIB, KIB, MIB, as_double, bytes_text, double_of, doubles_have_53_bits, elapsed_text, push_bytes, push_tenths, rounded, tenths_text};

verus! {

/// `n` bytes as a progress line shows them: whole kibibytes, tenths above.
pub open spec fn progress_bytes(n: nat) -> Seq<char> {
    if n >= GIB {
        tenths_text(as_double(n), GIB as nat) + " GiB"@
    } else if n >= MIB {
        tenths_text(as_double(n), MIB as nat) + " MiB"@
    } else if n >= KIB {
        dec(rounded(n, KIB as nat)) + " KiB"@
    } else {
        dec(n) + " bytes"@
    }
}

/// Bytes as `512 bytes` / `8 KiB` / `5.0 MiB` / `3.0 GiB`.
pub fn human_bytes(b: u64) -> (r: String)
    ensures
        r@ == progress_bytes(b as nat),
{
    let mut s = String::new();
    let n: u128 = b as u128;
    if n >= GIB {
        let v: u128 = double_of(b);
        assert(v * 10 / GIB as int <= u64::MAX - 1) by (nonlinear_arith)
            requires
                v <= u64::MAX + 4096,
                GIB == 1073741824,
        ;
        push_tenths(&mut s, v, GIB);
        s.append(" GiB");
    } else if n >= MIB {
        let v: u128 = double_of(b);
        assert(v * 10 / MIB as int <= u64::MAX - 1) by (nonlinear_arith)
            requires
                v <= u64::MAX + 4096,
                MIB == 1048576,
        ;
        push_tenths(&mut s, v, MIB);
        s.append(" MiB");
    } else if n >= KIB {
        let (q, r): (u64, u64) = (b / 1024, b % 1024);
        let k: u64 = if 2 * r > 1024 || (2 * r == 1024 && q % 2 == 1) {
            q + 1
        } else {
            q
        };
        push_dec(&mut s, k);
        s.append(" KiB");
    } else {
        push_dec(&mut s, b);
        s.append(" bytes");
    }
    assert(s@ =~= progress_bytes(b as nat));
    s
}

/// Elapsed seconds as `45s` / `2m5s` / `1h1m`.
pub fn human_elapsed(s: u64) -> (r: String)
    ensures
        r@ == elapsed_text(s as nat),
{
    crate::units::human_elapsed(s)
}

/// What a scan has covered so far. A scan cannot know its total in advance, so it reports what it
/// honestly knows: entries seen and file bytes covered.
pub struct ScanCount {
    pub entries: u64,
    pub bytes: u64,
}

/// A scan's counters as shown in its live line.
pub open spec fn scan_status(entries: nat, bytes: nat) -> Seq<char> {
    dec(entries) + " entries  "@ + bytes_text(bytes)
}

/// A scan's heartbeat line in a log.
pub open spec fn scan_heartbeat(root: Seq<char>, entries: nat, bytes: nat) -> Seq<char> {
    "filesync: scanning "@ + root + ": "@ + dec(entries) + " entries, "@ + bytes_text(bytes) + " so far"@
}

/// A scan's closing line in a log.
pub open spec fn scan_summary(root: Seq<char>, entries: nat, bytes: nat, secs: nat) -> Seq<char> {
    "filesync: scanned "@ + root + ": "@ + dec(entries) + " entries ("@ + bytes_text(bytes) + ") in "@
        + elapsed_text(secs)
}

impl ScanCount {
    pub fn new() -> (r: ScanCount)
        ensures
            r.entries == 0,
            r.bytes == 0,
    {
        ScanCount { entries: 0, bytes: 0 }
    }

    /// One entry examined; `bytes` is its file size (0 for non-files). Tells whether the live line
    /// is due for a refresh, which is every sixty-four entries.
    pub fn tick(&mut self, bytes: u64) -> (refresh: bool)
        requires
            old(self).entries < u64::MAX,
            old(self).bytes + bytes <= u64::MAX,
        ensures
            final(self).entries == old(self).entries + 1,
            final(self).bytes == old(self).bytes + bytes,
            refresh == (final(self).entries % 64 == 0),
    {
        self.entries = self.entries + 1;
        self.bytes = self.bytes + bytes;
        self.entries % 64 == 0
    }

    /// The text of the live line.
    pub fn status(&self) -> (r: String)
        ensures
            r@ == scan_status(self.entries as nat, self.bytes as nat),
    {
        let mut s = crate::text::dec_text(self.entries);
        s.append(" entries  ");
        push_bytes(&mut s, self.bytes);
        s
    }

    /// The heartbeat line of a log.
    pub fn heartbeat(&self, root: &str) -> (r: String)
        ensures
            r@ == scan_heartbeat(root@, self.entries as nat, self.bytes as nat),
    {
        let mut s = String::from_str("filesync: scanning ");
        s.append(root);
        s.append(": ");
        push_dec(&mut s, self.entries);
        s.append(" entries, ");
        push_bytes(&mut s, self.bytes);
        s.append(" so far");
        s
    }

    /// The closing line of a log.
    pub fn summary(&self, root: &str, secs: u64) -> (r: String)
        ensures
            r@ == scan_summary(root@, self.entries as nat, self.bytes as nat, secs as nat),
    {
        let mut s = String::from_str("filesync: scanned ");
        s.append(root);
        s.append(": ");
        push_dec(&mut s, self.entries);
        s.append(" entries (");
        push_bytes(&mut s, self.bytes);
        s.append(") in ");
        let e = human_elapsed(secs);
        s.append(e.as_str());
        s
    }
}

/// `done/total actions`.
pub open spec fn action_status(done: nat, total: nat) -> Seq<char> {
    dec(done) + "/"@ + dec(total) + " actions"@
}

/// The message of a sync's progress bar.
pub fn action_message(done: u64, total: u64) -> (r: String)
    ensures
        r@ == action_status(done as nat, total as nat),
{
    let mut s = crate::text::dec_text(done);
    s.append("/");
    push_dec(&mut s, total);
    s.append(" actions");
    s
}

/// The message of the comparing phase; `total` is the number of move candidates, 0 while unknown.
pub open spec fn compare_status(files: nat, total: nat, bytes: nat) -> Seq<char> {
    if total > 0 {
        dec(files) + "/"@ + dec(total) + " files, "@ + bytes_text(bytes) + " hashed"@
    } else {
        dec(files) + " files, "@ + bytes_text(bytes) + " hashed"@
    }
}

/// The message of the comparing phase.
pub fn compare_message(files: u64, total: u64, bytes: u64) -> (r: String)
    ensures
        r@ == compare_status(files as nat, total as nat, bytes as nat),
{
    let mut s = crate::text::dec_text(files);
    if total > 0 {
        s.append("/");
        push_dec(&mut s, total);
    }
    s.append(" files, ");
    push_bytes(&mut s, bytes);
    s.append(" hashed");
    s
}

/// Whether the message of the comparing phase is due for a refresh after `files` files.
pub fn compare_refresh_due(files: u64) -> (r: bool)
    ensures
        r == (files == 1 || files % 16 == 0),
{
    files == 1 || files % 16 == 0
}

/// The closing line of the comparing phase in a log, where anything was hashed at all.
pub open spec fn compare_summary(files: nat, bytes: nat, secs: nat) -> Option<Seq<char>> {
    if files > 0 {
        Some(
            "filesync: compared "@ + dec(files) + " file(s) ("@ + bytes_text(bytes) + ") in "@
                + elapsed_text(secs),
        )
    } else {
        None
    }
}

/// The closing line of the comparing phase in a log, where anything was hashed at all.
pub fn compare_closing(files: u64, bytes: u64, secs: u64) -> (r: Option<String>)
    ensures
        opt_text(r) == compare_summary(files as nat, bytes as nat, secs as nat),
{
    if files > 0 {
        let mut s = String::from_str("filesync: compared ");
        push_dec(&mut s, files);
        s.append(" file(s) (");
        push_bytes(&mut s, bytes);
        s.append(") in ");
        let e = human_elapsed(secs);
        s.append(e.as_str());
        Some(s)
    } else {
        None
    }
}

// ── laws ─────────────────────────────────────────────────────────────────────

/// A progress line shows a size in the largest unit of which it has at least one.
pub proof fn progress_is_shown_in_its_unit(n: nat)
    ensures
        n < 1024 ==> progress_bytes(n) == dec(n) + " bytes"@,
        1024 <= n < 1048576 ==> progress_bytes(n) == dec(rounded(n, 1024)) + " KiB"@,
        1048576 <= n < 1073741824 ==> progress_bytes(n) == tenths_text(n, 1048576) + " MiB"@,
        1073741824 <= n < 9007199254740992 ==> progress_bytes(n) == tenths_text(n, 1073741824) + " GiB"@,
{
    doubles_have_53_bits(n);
}

/// A comparison that hashed anything says so at its end, and one that hashed nothing is silent.
pub proof fn only_hashing_is_summed_up(files: nat, bytes: nat, secs: nat)
    ensures
        compare_summary(files, bytes, secs) is None <==> files == 0,
        compare_summary(files, bytes, secs) matches Some(t) ==> t == "filesync: compared "@ + dec(files)
            + " file(s) ("@ + bytes_text(bytes) + ") in "@ + elapsed_text(secs),
        compare_status(files, 0, bytes) == dec(files) + " files, "@ + bytes_text(bytes) + " hashed"@,
        forall|total: nat|
            total > 0 ==> #[trigger] compare_status(files, total, bytes) == dec(files) + "/"@ + dec(total) + " files, "@
                + bytes_text(bytes) + " hashed"@,
{
}

} // verus!
