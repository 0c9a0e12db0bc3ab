//! The plan of the transfer benchmark: which corpus is written, how much room it takes, what is swept
//! over, and what may be deleted. The measuring itself is the program's.
use vstd::prelude::*;
use vstd::utf8::encode_utf8;

use crate::number::{a_written_number_reads_back, parse_unsigned, unsigned_of, what_is_no_number_is_refused};
use crate::paths::{FsPath, PathV, joined, joined_text, parsed, starts_with};
use crate::text::{dec, in_base, opt_text, push_dec, push_zero_filled, split_words, text_between, text_same, texts_view, words, zero_filled};
use crate::units::{as_double, double_of, doubles_have_53_bits, push_tenths, rounded, tenths_text};

verus! {

pub const KIB: u64 = 1024;

pub const MIB: u64 = 1048576;

pub const GIB: u64 = 1073741824;

/// "Few large" files are of 512 MiB each.
pub const LARGE_FILE_BYTES: u64 = 536870912;

/// "Many small" files are of 64 KiB each.
pub const SMALL_FILE_BYTES: u64 = 65536;

/// The one folder, per drive, that anything is created and deleted in.
pub const SCRATCH: &'static str = ".filesync_benchmark_scratch";

/// What temp files are called in the scratch folder.
pub const BENCH_TEMP: &'static str = ".bench.tmp.";

/// One of the two shapes of a corpus.
#[derive(Debug, Clone, Copy, PartialEq, Eq, Structural)]
pub enum Shape {
    Large,
    Small,
}

impl Shape {
    pub open spec fn name_text(self) -> Seq<char> {
        match self {
            Shape::Large => "large"@,
            Shape::Small => "small"@,
        }
    }

    pub fn name(&self) -> (r: &'static str)
        ensures
            r@ == self.name_text(),
    {
        match self {
            Shape::Large => "large",
            Shape::Small => "small",
        }
    }
}

/// A corpus: so many files of one size.
#[derive(Debug, Clone, Copy, PartialEq, Eq, Structural)]
pub struct Profile {
    pub shape: Shape,
    pub file_bytes: u64,
    pub count: u64,
}

pub open spec fn least(a: int, b: int) -> int {
    if a < b {
        a
    } else {
        b
    }
}

/// A corpus of some shape and about so many bytes: a file is never larger than the whole, and there
/// is at least one.
pub open spec fn profile(shape: Shape, total: int) -> Profile {
    let size = least(
        if shape == Shape::Large {
            LARGE_FILE_BYTES as int
        } else {
            SMALL_FILE_BYTES as int
        },
        total,
    );
    Profile { shape, file_bytes: size as u64, count: (total / size) as u64 }
}

fn make_profile(shape: Shape, total: u64) -> (r: Profile)
    requires
        total > 0,
    ensures
        r == profile(shape, total as int),
        r.count >= 1,
        r.count * r.file_bytes <= total,
{
    let full: u64 = if shape == Shape::Large { LARGE_FILE_BYTES } else { SMALL_FILE_BYTES };
    let size: u64 = if full < total { full } else { total };
    let count: u64 = total / size;
    assert(count >= 1 && count * size <= total) by (nonlinear_arith)
        requires
            0 < size <= total,
            count == total / size,
    ;
    Profile { shape, file_bytes: size, count }
}

/// The two shapes of a corpus for a total per shape.
pub fn profiles_of(total: u64) -> (r: Vec<Profile>)
    requires
        total > 0,
    ensures
        r@ == seq![profile(Shape::Large, total as int), profile(Shape::Small, total as int)],
        forall|i: int| 0 <= i < r@.len() ==> #[trigger] r@[i].count >= 1 && r@[i].count * r@[i].file_bytes <= total,
{
    let mut out: Vec<Profile> = Vec::new();
    out.push(make_profile(Shape::Large, total));
    out.push(make_profile(Shape::Small, total));
    assert(out@ =~= seq![profile(Shape::Large, total as int), profile(Shape::Small, total as int)]);
    out
}

/// The shapes to run.
pub open spec fn selected(total: int, want: Option<Seq<char>>) -> Seq<Profile> {
    if want == Some("large"@) {
        seq![profile(Shape::Large, total)]
    } else if want == Some("small"@) {
        seq![profile(Shape::Small, total)]
    } else {
        seq![profile(Shape::Large, total), profile(Shape::Small, total)]
    }
}

fn is_text(t: &Option<String>, want: &str) -> (r: bool)
    ensures
        r == (opt_text(*t) == Some(want@)),
{
    match t {
        Some(x) => text_same(x.as_str(), want),
        None => false,
    }
}

/// The shapes to run: `large`, `small`, or both by default.
pub fn selected_profiles(total: u64, want: &Option<String>) -> (r: Vec<Profile>)
    requires
        total > 0,
    ensures
        r@ == selected(total as int, opt_text(*want)),
{
    let mut out: Vec<Profile> = Vec::new();
    if is_text(want, "large") {
        out.push(make_profile(Shape::Large, total));
    } else if is_text(want, "small") {
        out.push(make_profile(Shape::Small, total));
    } else {
        out.push(make_profile(Shape::Large, total));
        out.push(make_profile(Shape::Small, total));
    }
    assert(out@ =~= selected(total as int, opt_text(*want)));
    out
}

/// A number from the environment.
pub open spec fn number_of(text: Option<Seq<char>>) -> Option<nat> {
    match text {
        Some(t) => unsigned_of(t, u64::MAX as nat),
        None => None,
    }
}

fn parse_number(text: &Option<String>) -> (r: Option<u64>)
    ensures
        match number_of(opt_text(*text)) {
            Some(n) => r == Some(n as u64) && n <= u64::MAX,
            None => r is None,
        },
{
    match text {
        Some(t) => parse_unsigned(t.as_str(), u64::MAX),
        None => None,
    }
}

/// The bytes per shape: so many MiB where that was given, else so many GiB.
pub open spec fn total_for(mib: Option<Seq<char>>, default_gib: nat) -> nat {
    match number_of(mib) {
        Some(n) => n * MIB as nat,
        None => default_gib * GIB as nat,
    }
}

/// The bytes per shape; none where they do not fit in sixty-four bits.
pub fn env_total_bytes(mib: &Option<String>, default_gib: u64) -> (r: Option<u64>)
    ensures
        match r {
            Some(n) => n == total_for(opt_text(*mib), default_gib as nat),
            None => total_for(opt_text(*mib), default_gib as nat) > u64::MAX,
        },
{
    match parse_number(mib) {
        Some(n) => n.checked_mul(MIB),
        None => default_gib.checked_mul(GIB),
    }
}

/// The file system's allocation unit: what was given, else what the system says, else 4 KiB. Zero is
/// no answer.
pub fn block_size(given: &Option<String>, reported: &Option<String>) -> (r: u64)
    ensures
        r == match number_of(opt_text(*given)) {
            Some(n) if n > 0 => n,
            _ => match number_of(opt_text(*reported)) {
                Some(n) if n > 0 => n,
                _ => 4096,
            },
        },
{
    if let Some(n) = parse_number(given) {
        if n > 0 {
            return n;
        }
    }
    if let Some(n) = parse_number(reported) {
        if n > 0 {
            return n;
        }
    }
    4096
}

/// How many times each point is measured: what was given, and once otherwise.
pub fn repeats(given: &Option<String>) -> (r: u32)
    ensures
        r == (match given {
            Some(t) => match unsigned_of(t@, u32::MAX as nat) {
                Some(n) if n >= 1 => n,
                _ => 1,
            },
            None => 1,
        }),
{
    match given {
        Some(t) => match parse_unsigned(t.as_str(), u32::MAX as u64) {
            Some(n) => {
                if n >= 1 {
                    n as u32
                } else {
                    1
                }
            },
            None => 1,
        },
        None => 1,
    }
}

// ── room ─────────────────────────────────────────────────────────────────────

/// What a file occupies: whole allocation units.
pub open spec fn on_disk(file_bytes: nat, block: nat) -> nat {
    if block <= 1 {
        file_bytes
    } else {
        ((file_bytes + block - 1) as nat) / block * block
    }
}

/// What a corpus occupies.
pub open spec fn footprint(p: Profile, block: nat) -> nat {
    p.count as nat * on_disk(p.file_bytes as nat, block)
}

/// What the first `n` corpora occupy together.
pub open spec fn footprints(ps: Seq<Profile>, block: nat, n: int) -> nat
    decreases n,
{
    if n <= 0 {
        0
    } else {
        footprints(ps, block, n - 1) + footprint(ps[n - 1], block)
    }
}

/// What the largest of the first `n` corpora occupies.
pub open spec fn largest(ps: Seq<Profile>, block: nat, n: int) -> nat
    decreases n,
{
    if n <= 0 {
        0
    } else if largest(ps, block, n - 1) < footprint(ps[n - 1], block) {
        footprint(ps[n - 1], block)
    } else {
        largest(ps, block, n - 1)
    }
}

fn file_room(file_bytes: u64, block: u64) -> (r: u128)
    ensures
        r == on_disk(file_bytes as nat, block as nat),
        r <= file_bytes + block,
{
    if block <= 1 {
        return file_bytes as u128;
    }
    let a: u128 = file_bytes as u128 + block as u128 - 1;
    let q: u128 = a / block as u128;
    assert(q * block <= a) by (nonlinear_arith)
        requires
            q == a / block as u128,
            block > 0,
    ;
    assert(a / block as u128 == ((file_bytes + block - 1) as nat) / block as nat);
    q * block as u128
}

/// What a corpus occupies; none where that does not fit in sixty-four bits.
pub fn profile_footprint(p: &Profile, block: u64) -> (r: Option<u64>)
    ensures
        match r {
            Some(n) => n == footprint(*p, block as nat),
            None => footprint(*p, block as nat) > u64::MAX,
        },
{
    if p.count == 0 {
        assert(footprint(*p, block as nat) == 0) by (nonlinear_arith)
            requires
                footprint(*p, block as nat) == 0nat * on_disk(p.file_bytes as nat, block as nat),
        ;
        return Some(0);
    }
    let room: u128 = file_room(p.file_bytes, block);
    if room > u64::MAX as u128 {
        assert(footprint(*p, block as nat) >= room) by (nonlinear_arith)
            requires
                footprint(*p, block as nat) == p.count as nat * room as nat,
                p.count >= 1,
        ;
        return None;
    }
    assert(p.count * room <= u64::MAX * u64::MAX) by (nonlinear_arith)
        requires
            0 <= p.count <= u64::MAX,
            0 <= room <= u64::MAX,
    ;
    let all: u128 = p.count as u128 * room;
    if all > u64::MAX as u128 {
        None
    } else {
        Some(all as u64)
    }
}

proof fn lemma_footprints_grow(ps: Seq<Profile>, block: nat, m: int, n: int)
    requires
        0 <= m <= n <= ps.len(),
    ensures
        footprints(ps, block, m) <= footprints(ps, block, n),
        largest(ps, block, m) <= largest(ps, block, n),
        m < n ==> footprint(ps[m], block) <= footprints(ps, block, n) && footprint(ps[m], block) <= largest(
            ps,
            block,
            n,
        ),
    decreases n - m,
{
    if m < n {
        lemma_footprints_grow(ps, block, m + 1, n);
    }
}

/// What the corpora occupy together; none where that does not fit in sixty-four bits.
pub fn corpus_footprint(ps: &Vec<Profile>, block: u64) -> (r: Option<u64>)
    ensures
        match r {
            Some(n) => n == footprints(ps@, block as nat, ps@.len() as int),
            None => footprints(ps@, block as nat, ps@.len() as int) > u64::MAX,
        },
{
    let mut sum: u64 = 0;
    let mut i: usize = 0;
    while i < ps.len()
        invariant
            0 <= i <= ps@.len(),
            sum == footprints(ps@, block as nat, i as int),
        decreases ps@.len() - i,
    {
        proof {
            lemma_footprints_grow(ps@, block as nat, i as int, ps@.len() as int);
            lemma_footprints_grow(ps@, block as nat, i + 1, ps@.len() as int);
        }
        match profile_footprint(&ps[i], block) {
            Some(n) => match sum.checked_add(n) {
                Some(t) => {
                    sum = t;
                },
                None => {
                    return None;
                },
            },
            None => {
                return None;
            },
        }
        i = i + 1;
    }
    Some(sum)
}

/// What the largest corpus occupies, the most that is there at once when they are written one by one;
/// none where that does not fit in sixty-four bits.
pub fn max_profile_footprint(ps: &Vec<Profile>, block: u64) -> (r: Option<u64>)
    ensures
        match r {
            Some(n) => n == largest(ps@, block as nat, ps@.len() as int),
            None => largest(ps@, block as nat, ps@.len() as int) > u64::MAX,
        },
{
    let mut best: u64 = 0;
    let mut i: usize = 0;
    while i < ps.len()
        invariant
            0 <= i <= ps@.len(),
            best == largest(ps@, block as nat, i as int),
        decreases ps@.len() - i,
    {
        proof {
            lemma_footprints_grow(ps@, block as nat, i as int, ps@.len() as int);
        }
        match profile_footprint(&ps[i], block) {
            Some(n) => {
                if best < n {
                    best = n;
                }
            },
            None => {
                return None;
            },
        }
        i = i + 1;
    }
    Some(best)
}

/// Slack for the file system's own needs: a twentieth and 32 MiB more.
pub open spec fn margin(bytes: nat) -> nat {
    bytes + bytes / 20 + 32 * MIB as nat
}

/// Room with slack; none where that does not fit in sixty-four bits.
pub fn with_margin(bytes: u64) -> (r: Option<u64>)
    ensures
        match r {
            Some(n) => n == margin(bytes as nat),
            None => margin(bytes as nat) > u64::MAX,
        },
{
    let m: u128 = bytes as u128 + bytes as u128 / 20 + 33554432;
    assert(m == margin(bytes as nat));
    if m > u64::MAX as u128 {
        None
    } else {
        Some(m as u64)
    }
}

/// Files occupy at least their size, and less than one unit more.
pub proof fn a_file_fits_its_allocation(file_bytes: nat, block: nat)
    ensures
        on_disk(file_bytes, block) >= file_bytes,
        block >= 1 ==> on_disk(file_bytes, block) < file_bytes + block,
        block >= 1 ==> on_disk(file_bytes, block) % block == 0,
{
    if block > 1 {
        let a = (file_bytes + block - 1) as nat;
        let q = a / block;
        assert(q * block <= a < q * block + block) by (nonlinear_arith)
            requires
                q == a / block,
                block > 0,
        ;
        assert((q * block) % block == 0) by (nonlinear_arith)
            requires
                block > 0,
        ;
    } else if block == 1 {
        assert(file_bytes % 1 == 0);
    }
}

/// A size as the benchmark shows it.
pub open spec fn human_text(bytes: nat) -> Seq<char> {
    if bytes >= GIB {
        tenths_text(as_double(bytes), GIB as nat) + " GiB"@
    } else if bytes >= MIB {
        dec(rounded(bytes, MIB as nat)) + " MiB"@
    } else {
        dec(bytes) + " bytes"@
    }
}

/// A size as the benchmark shows it: GiB with one decimal, whole MiB, or bytes.
pub fn human(bytes: u64) -> (r: String)
    ensures
        r@ == human_text(bytes as nat),
{
    let mut s = String::new();
    if bytes >= GIB {
        let v: u128 = double_of(bytes);
        push_tenths(&mut s, v, GIB as u128);
        s.append(" GiB");
    } else if bytes >= MIB {
        let q: u64 = bytes / MIB;
        let r: u64 = bytes % MIB;
        if 2 * r > MIB || (2 * r == MIB && q % 2 == 1) {
            push_dec(&mut s, q + 1);
        } else {
            push_dec(&mut s, q);
        }
        s.append(" MiB");
    } else {
        push_dec(&mut s, bytes);
        s.append(" bytes");
    }
    assert(s@ =~= human_text(bytes as nat));
    s
}

/// The second line of a text, without its line break.
pub open spec fn second_line(s: Seq<char>) -> Seq<char> {
    if s.contains('\n') {
        let rest = s.subrange(s.index_of_first('\n')->0 + 1, s.len() as int);
        if rest.contains('\n') {
            rest.subrange(0, rest.index_of_first('\n')->0)
        } else {
            rest
        }
    } else {
        Seq::empty()
    }
}

/// The free bytes in a table of `df -Pk`: the fourth word of the second line, in KiB, as far as they
/// can be counted.
pub open spec fn free_in_table(table: Seq<char>) -> Option<nat> {
    let w = words(second_line(table));
    if w.len() > 3 {
        match unsigned_of(w[3], u64::MAX as nat) {
            Some(k) => Some(least(k as int * 1024, u64::MAX as int) as nat),
            None => None,
        }
    } else {
        None
    }
}

fn find_break(s: &str, from: usize) -> (r: usize)
    requires
        from <= s@.len(),
    ensures
        from <= r <= s@.len(),
        forall|k: int| from <= k < r ==> s@[k] != '\n',
        r < s@.len() ==> s@[r as int] == '\n',
{
    let n: usize = s.unicode_len();
    let mut i: usize = from;
    while i < n && s.get_char(i) != '\n'
        invariant
            n == s@.len(),
            from <= i <= n,
            forall|k: int| from <= k < i ==> s@[k] != '\n',
        decreases n - i,
    {
        i = i + 1;
    }
    i
}

proof fn lemma_first_break(s: Seq<char>, k: int)
    requires
        0 <= k <= s.len(),
        forall|j: int| 0 <= j < k ==> s[j] != '\n',
        k < s.len() ==> s[k] == '\n',
    ensures
        s.contains('\n') <==> k < s.len(),
        k < s.len() ==> s.index_of_first('\n') == Some(k),
{
    s.index_of_first_ensures('\n');
    if k < s.len() {
        assert(s.contains('\n'));
        let f = s.index_of_first('\n')->0;
        if f < k {
            assert(s[f] != '\n');
        }
    }
}

/// The free bytes that a table of `df -Pk` shows.
pub fn available_bytes(table: &str) -> (r: Option<u64>)
    ensures
        match free_in_table(table@) {
            Some(n) => r == Some(n as u64) && n <= u64::MAX,
            None => r is None,
        },
{
    let n: usize = table.unicode_len();
    let a: usize = find_break(table, 0);
    proof {
        lemma_first_break(table@, a as int);
    }
    let line = if a < n {
        let b: usize = find_break(table, a + 1);
        proof {
            let rest = table@.subrange(a + 1, table@.len() as int);
            lemma_first_break(rest, b - (a + 1));
            if b < n {
                assert(rest.subrange(0, b - (a + 1)) =~= table@.subrange(a + 1, b as int));
            }
        }
        text_between(table, a + 1, b)
    } else {
        String::new()
    };
    assert(line@ =~= second_line(table@));
    let w = split_words(line.as_str());
    assert(w@.len() == words(line@).len());
    if w.len() > 3 {
        assert(texts_view(w@)[3] == w@[3]@);
        match parse_unsigned(w[3].as_str(), u64::MAX) {
            Some(k) => match k.checked_mul(1024) {
                Some(b) => Some(b),
                None => Some(u64::MAX),
            },
            None => None,
        }
    } else {
        None
    }
}

// ── the scratch folder ───────────────────────────────────────────────────────

pub open spec fn scratch_at(drive: PathV) -> PathV {
    joined(drive, parsed(encode_utf8(SCRATCH@)))
}

/// How the scratch folder is spelled.
pub open spec fn scratch_text(drive: Seq<u8>) -> Seq<u8> {
    joined_text(drive, encode_utf8(SCRATCH@))
}

pub fn scratch_root(drive: &FsPath) -> (r: FsPath)
    ensures
        r@ == scratch_at(drive@),
        r.spelled() == scratch_text(drive.spelled()),
{
    drive.join(&FsPath::parse(SCRATCH.as_bytes()))
}

pub open spec fn corpora_at(drive: PathV) -> PathV {
    joined(scratch_at(drive), parsed(encode_utf8("corpus"@)))
}

pub fn corpus_root(drive: &FsPath) -> (r: FsPath)
    ensures
        r@ == corpora_at(drive@),
        r.spelled() == joined_text(scratch_text(drive.spelled()), encode_utf8("corpus"@)),
{
    scratch_root(drive).join(&FsPath::parse("corpus".as_bytes()))
}

pub fn corpus_dir(drive: &FsPath, shape: Shape) -> (r: FsPath)
    ensures
        r@ == joined(corpora_at(drive@), parsed(encode_utf8(shape.name_text()))),
        r.spelled() == joined_text(
            joined_text(scratch_text(drive.spelled()), encode_utf8("corpus"@)),
            encode_utf8(shape.name_text()),
        ),
{
    corpus_root(drive).join(&FsPath::parse(shape.name().as_bytes()))
}

pub fn copy_dir(drive: &FsPath, shape: Shape, variant: &str) -> (r: FsPath)
    ensures
        r@ == joined(
            joined(
                joined(scratch_at(drive@), parsed(encode_utf8("copy"@))),
                parsed(encode_utf8(shape.name_text())),
            ),
            parsed(encode_utf8(variant@)),
        ),
        r.spelled() == joined_text(
            joined_text(
                joined_text(scratch_text(drive.spelled()), encode_utf8("copy"@)),
                encode_utf8(shape.name_text()),
            ),
            encode_utf8(variant@),
        ),
{
    scratch_root(drive).join(&FsPath::parse("copy".as_bytes())).join(
        &FsPath::parse(shape.name().as_bytes()),
    ).join(&FsPath::parse(variant.as_bytes()))
}

/// What may be deleted: the scratch folder, where it lies strictly inside the drive, and what is in
/// it.
pub open spec fn removable(path: PathV, drive: PathV) -> bool {
    &&& scratch_at(drive) != drive
    &&& starts_with(scratch_at(drive), drive)
    &&& starts_with(path, scratch_at(drive))
}

/// Whether a path may be deleted: the only place where that is decided.
pub fn may_remove(path: &FsPath, drive: &FsPath) -> (r: bool)
    ensures
        r == removable(path@, drive@),
{
    let scratch = scratch_root(drive);
    !scratch.same(drive) && scratch.starts_with(drive) && path.starts_with(&scratch)
}

/// Neither the drive's root nor anything beside the scratch folder can be deleted.
pub proof fn only_the_scratch_folder_is_removed(path: PathV, drive: PathV)
    requires
        removable(path, drive),
    ensures
        path != drive,
        starts_with(path, drive),
        starts_with(path, scratch_at(drive)),
        path.len() > drive.len(),
{
    let s = scratch_at(drive);
    if s.len() == drive.len() {
        assert(s.subrange(0, drive.len() as int) =~= s);
    }
    assert(path.subrange(0, drive.len() as int) =~= s.subrange(0, drive.len() as int));
}

/// The name of the `i`-th file of a corpus.
pub fn corpus_file(i: u64) -> (r: String)
    ensures
        r@ == "f_"@ + zero_filled(in_base(i as nat, 10), 6),
{
    let mut s = String::from_str("f_");
    push_zero_filled(&mut s, i, 10, 6);
    s
}

// ── filling files ────────────────────────────────────────────────────────────

/// The next state of the generator.
pub open spec fn next_state(x: u64) -> u64 {
    let a = x ^ (x << 13);
    let b = a ^ (a >> 7);
    b ^ (b << 17)
}

/// The state after `k` steps.
pub open spec fn state_after(x: u64, k: int) -> u64
    decreases k,
{
    if k <= 0 {
        x
    } else {
        next_state(state_after(x, k - 1))
    }
}

/// The `i`-th byte that the generator yields: eight per step, least significant first.
pub open spec fn filler(x: u64, i: int) -> u8 {
    ((state_after(x, i / 8 + 1) >> (8 * (i % 8)) as u64) & 0xff) as u8
}

/// Fills a buffer with bytes that neither compress nor leave holes, and steps the generator on.
pub fn fill(buf: &mut Vec<u8>, state: &mut u64)
    ensures
        final(buf)@ == Seq::new(old(buf)@.len(), |i: int| filler(*old(state), i)),
        *final(state) == state_after(*old(state), ((old(buf)@.len() + 7) / 8) as int),
{
    let ghost start = *state;
    let n: usize = buf.len();
    let mut x: u64 = *state;
    let mut i: usize = 0;
    while i < n
        invariant
            n == buf@.len(),
            0 <= i <= n,
            x == state_after(start, (i + 7) / 8),
            forall|k: int| 0 <= k < i ==> buf@[k] == filler(start, k),
        decreases n - i,
    {
        if i % 8 == 0 {
            let a: u64 = x ^ (x << 13u64);
            let b: u64 = a ^ (a >> 7u64);
            x = b ^ (b << 17u64);
            assert(x == state_after(start, i / 8 + 1));
        }
        let shift: u64 = 8 * (i % 8) as u64;
        let byte: u8 = ((x >> shift) & 0xff) as u8;
        assert((i + 1 + 7) / 8 == i / 8 + 1);
        assert(byte == filler(start, i as int));
        buf.set(i, byte);
        i = i + 1;
    }
    *state = x;
    assert(buf@ =~= Seq::new(n as nat, |i: int| filler(start, i)));
}

/// Where the generator starts for a corpus: a stream of its own for each size.
pub fn corpus_seed(file_bytes: u64) -> (r: u64)
    ensures
        r == 0x9E3779B97F4A7C15u64 ^ file_bytes,
{
    0x9E3779B97F4A7C15u64 ^ file_bytes
}

/// Where the generator starts for the `i`-th file, when files are written side by side. It must not
/// start at zero, where it would stay.
pub fn file_seed(file_bytes: u64, i: u64) -> (r: u64)
    ensures
        ({
            let s = 0x9E3779B97F4A7C15u64 ^ file_bytes ^ i.wrapping_mul(0x2545F4914F6CDD1Du64);
            r == if s == 0 {
                1u64
            } else {
                s
            }
        }),
{
    let s: u64 = 0x9E3779B97F4A7C15u64 ^ file_bytes ^ i.wrapping_mul(0x2545F4914F6CDD1Du64);
    if s == 0 {
        1
    } else {
        s
    }
}

// ── the sweeps ───────────────────────────────────────────────────────────────

/// The numbers of workers that are swept over.
pub open spec fn worker_counts() -> Seq<usize> {
    seq![1usize, 2, 4, 6, 8, 16]
}

pub fn jobs() -> (r: Vec<usize>)
    ensures
        r@ == worker_counts(),
{
    let mut v: Vec<usize> = Vec::new();
    v.push(1);
    v.push(2);
    v.push(4);
    v.push(6);
    v.push(8);
    v.push(16);
    assert(v@ =~= worker_counts());
    v
}

/// A step of a sweep.
#[derive(Debug, Clone, Copy, PartialEq, Eq, Structural)]
pub enum SweepStep {
    /// Write the corpus anew with so many workers, and measure it.
    Write { profile: Profile, jobs: usize },
    /// Hash the corpus with so many workers, and measure it.
    Read { profile: Profile, jobs: usize },
    /// Remove the corpus.
    Remove { profile: Profile },
    /// See to it that the corpus is there to be copied.
    Prepare { profile: Profile },
    /// Copy the corpus with so many workers, and measure it.
    Copy { profile: Profile, jobs: usize },
}

/// The steps for one corpus of the write and read sweep.
pub open spec fn jobs_steps(p: Profile) -> Seq<SweepStep> {
    let w = worker_counts();
    Seq::new(w.len(), |i: int| SweepStep::Write { profile: p, jobs: w[i] }) + Seq::new(
        w.len(),
        |i: int| SweepStep::Read { profile: p, jobs: w[i] },
    ) + seq![SweepStep::Remove { profile: p }]
}

/// The steps of the write and read sweep over the first `n` corpora: one after the other, so that
/// only one is on the drive at a time.
pub open spec fn jobs_sweep_of(ps: Seq<Profile>, n: int) -> Seq<SweepStep>
    decreases n,
{
    if n <= 0 {
        Seq::empty()
    } else {
        jobs_sweep_of(ps, n - 1) + jobs_steps(ps[n - 1])
    }
}

/// How does the number of workers affect writing and reading? Each corpus is written anew for each
/// number of workers, then read for each, then removed.
pub fn phase_jobs(ps: &Vec<Profile>) -> (r: Vec<SweepStep>)
    ensures
        r@ == jobs_sweep_of(ps@, ps@.len() as int),
{
    let w = jobs();
    let mut out: Vec<SweepStep> = Vec::new();
    let mut i: usize = 0;
    while i < ps.len()
        invariant
            w@ == worker_counts(),
            0 <= i <= ps@.len(),
            out@ == jobs_sweep_of(ps@, i as int),
        decreases ps@.len() - i,
    {
        let p = ps[i];
        let ghost base = out@;
        let ghost writes = Seq::new(w@.len(), |k: int| SweepStep::Write { profile: p, jobs: w@[k] });
        let ghost reads = Seq::new(w@.len(), |k: int| SweepStep::Read { profile: p, jobs: w@[k] });
        let mut k: usize = 0;
        assert(out@ =~= base + writes.subrange(0, 0));
        while k < w.len()
            invariant
                0 <= k <= w@.len(),
                writes == Seq::new(w@.len(), |k: int| SweepStep::Write { profile: p, jobs: w@[k] }),
                out@ == base + writes.subrange(0, k as int),
            decreases w@.len() - k,
        {
            out.push(SweepStep::Write { profile: p, jobs: w[k] });
            k = k + 1;
            assert(out@ =~= base + writes.subrange(0, k as int));
        }
        assert(writes.subrange(0, w@.len() as int) =~= writes);
        k = 0;
        assert(out@ =~= base + writes + reads.subrange(0, 0));
        while k < w.len()
            invariant
                0 <= k <= w@.len(),
                reads == Seq::new(w@.len(), |k: int| SweepStep::Read { profile: p, jobs: w@[k] }),
                out@ == base + writes + reads.subrange(0, k as int),
            decreases w@.len() - k,
        {
            out.push(SweepStep::Read { profile: p, jobs: w[k] });
            k = k + 1;
            assert(out@ =~= base + writes + reads.subrange(0, k as int));
        }
        assert(reads.subrange(0, w@.len() as int) =~= reads);
        out.push(SweepStep::Remove { profile: p });
        i = i + 1;
        assert(out@ =~= base + jobs_steps(p));
    }
    out
}

/// So many times the same copy.
pub open spec fn copies_of(p: Profile, jobs: usize, repeat: int) -> Seq<SweepStep> {
    Seq::new(if repeat < 0 { 0 } else { repeat as nat }, |i: int| SweepStep::Copy { profile: p, jobs })
}

/// The copies of one corpus, over the first `n` numbers of workers.
pub open spec fn copy_steps(p: Profile, repeat: int, n: int) -> Seq<SweepStep>
    decreases n,
{
    if n <= 0 {
        seq![SweepStep::Prepare { profile: p }]
    } else {
        copy_steps(p, repeat, n - 1) + copies_of(p, worker_counts()[n - 1], repeat)
    }
}

/// The steps of the copy sweep over the first `n` corpora.
pub open spec fn copy_sweep_of(ps: Seq<Profile>, repeat: int, n: int) -> Seq<SweepStep>
    decreases n,
{
    if n <= 0 {
        Seq::empty()
    } else {
        copy_sweep_of(ps, repeat, n - 1) + copy_steps(ps[n - 1], repeat, worker_counts().len() as int)
    }
}

/// What would copying side by side gain? Each corpus is prepared at its source, then copied for each
/// number of workers, as often as asked for.
pub fn phase_copy_jobs(ps: &Vec<Profile>, repeat: u32) -> (r: Vec<SweepStep>)
    ensures
        r@ == copy_sweep_of(ps@, repeat as int, ps@.len() as int),
{
    let w = jobs();
    let mut out: Vec<SweepStep> = Vec::new();
    let mut i: usize = 0;
    while i < ps.len()
        invariant
            w@ == worker_counts(),
            0 <= i <= ps@.len(),
            out@ == copy_sweep_of(ps@, repeat as int, i as int),
        decreases ps@.len() - i,
    {
        let p = ps[i];
        let ghost base = out@;
        out.push(SweepStep::Prepare { profile: p });
        let mut k: usize = 0;
        assert(out@ =~= base + copy_steps(p, repeat as int, 0));
        while k < w.len()
            invariant
                w@ == worker_counts(),
                0 <= k <= w@.len(),
                out@ == base + copy_steps(p, repeat as int, k as int),
            decreases w@.len() - k,
        {
            let ghost so_far = out@;
            let n = w[k];
            let mut t: u32 = 0;
            assert(out@ =~= so_far + copies_of(p, n, 0));
            while t < repeat
                invariant
                    0 <= t <= repeat,
                    out@ == so_far + copies_of(p, n, t as int),
                decreases repeat - t,
            {
                out.push(SweepStep::Copy { profile: p, jobs: n });
                t = t + 1;
                assert(out@ =~= so_far + copies_of(p, n, t as int));
            }
            k = k + 1;
            assert(out@ =~= base + copy_steps(p, repeat as int, k as int));
        }
        i = i + 1;
    }
    out
}

/// The bytes that one pass over the first `n` corpora writes.
pub open spec fn pass_bytes(ps: Seq<Profile>, n: int) -> nat
    decreases n,
{
    if n <= 0 {
        0
    } else {
        pass_bytes(ps, n - 1) + ps[n - 1].count as nat * ps[n - 1].file_bytes as nat
    }
}

/// The bytes that a sweep writes: a pass for each number of workers, as often as asked for; none
/// where that does not fit in sixty-four bits.
pub fn sweep_bytes(ps: &Vec<Profile>, repeat: u32) -> (r: Option<u64>)
    ensures
        match r {
            Some(n) => n == 6 * pass_bytes(ps@, ps@.len() as int) * repeat,
            None => 6 * pass_bytes(ps@, ps@.len() as int) * repeat > u64::MAX || pass_bytes(
                ps@,
                ps@.len() as int,
            ) > u64::MAX,
        },
{
    let mut sum: u64 = 0;
    let mut i: usize = 0;
    while i < ps.len()
        invariant
            0 <= i <= ps@.len(),
            sum == pass_bytes(ps@, i as int),
        decreases ps@.len() - i,
    {
        let p = ps[i];
        assert(p.count * p.file_bytes <= u64::MAX * u64::MAX) by (nonlinear_arith)
            requires
                0 <= p.count <= u64::MAX,
                0 <= p.file_bytes <= u64::MAX,
        ;
        let more: u128 = p.count as u128 * p.file_bytes as u128;
        proof {
            lemma_pass_grows(ps@, i + 1, ps@.len() as int);
            assert(pass_bytes(ps@, i + 1) == sum + more);
        }
        if more > u64::MAX as u128 || sum as u128 + more > u64::MAX as u128 {
            return None;
        }
        sum = sum + more as u64;
        i = i + 1;
    }
    let six: u128 = 6 * sum as u128;
    assert(six * repeat <= 6 * u64::MAX * u32::MAX) by (nonlinear_arith)
        requires
            0 <= six <= 6 * u64::MAX,
            0 <= repeat <= u32::MAX,
    ;
    let all: u128 = six * repeat as u128;
    if all > u64::MAX as u128 {
        None
    } else {
        Some(all as u64)
    }
}

proof fn lemma_pass_grows(ps: Seq<Profile>, m: int, n: int)
    requires
        0 <= m <= n <= ps.len(),
    ensures
        pass_bytes(ps, m) <= pass_bytes(ps, n),
    decreases n - m,
{
    if m < n {
        lemma_pass_grows(ps, m, n - 1);
    }
}

/// How copies are made durable in the copy sweep.
#[derive(Debug, Clone, Copy, PartialEq, Eq, Structural)]
pub enum SyncMode {
    /// Each file on its own.
    Each,
    /// The whole file system at once.
    Fs,
}

/// How copies are made durable: each file on its own, unless `fs` was asked for.
pub fn sync_mode(given: &Option<String>) -> (r: SyncMode)
    ensures
        r == if opt_text(*given) == Some("fs"@) {
            SyncMode::Fs
        } else {
            SyncMode::Each
        },
{
    if is_text(given, "fs") {
        SyncMode::Fs
    } else {
        SyncMode::Each
    }
}

/// What is said of the wear of a write sweep.
pub fn wear_note(bytes: u64) -> (r: String)
    ensures
        r@ == "[wear] the write sweep rewrites the corpus 6 times per profile — about "@ + human_text(
            bytes as nat,
        ) + " of writes total. Lower with FILESYNC_BENCH_MIB."@,
{
    let mut s = String::from_str("[wear] the write sweep rewrites the corpus 6 times per profile — about ");
    let h = human(bytes);
    s.append(h.as_str());
    s.append(" of writes total. Lower with FILESYNC_BENCH_MIB.");
    s
}

/// What is said of the wear of a copy sweep.
pub fn copy_wear_note(bytes: u64, to: &str, repeat: u32) -> (r: String)
    ensures
        r@ == "[wear] ~"@ + human_text(bytes as nat) + " written to "@ + to@
            + " (6 worker counts x 2 profiles x "@ + dec(repeat as nat)
            + "). Lower with FILESYNC_BENCH_MIB."@,
{
    let mut s = String::from_str("[wear] ~");
    let h = human(bytes);
    s.append(h.as_str());
    s.append(" written to ");
    s.append(to);
    s.append(" (6 worker counts x 2 profiles x ");
    push_dec(&mut s, repeat as u64);
    s.append("). Lower with FILESYNC_BENCH_MIB.");
    s
}

// ── laws ─────────────────────────────────────────────────────────────────────

/// A corpus has the bytes that were asked for, but for less than one file: files of half a gibibyte, or of
/// 64 KiB, and never larger than the whole.
pub proof fn a_corpus_is_as_large_as_asked(shape: Shape, total: u64)
    requires
        total > 0,
    ensures
        ({
            let p = profile(shape, total as int);
            &&& p.shape == shape
            &&& shape == Shape::Large ==> p.file_bytes == (if total < 536870912 {
                total
            } else {
                536870912
            })
            &&& shape == Shape::Small ==> p.file_bytes == (if total < 65536 {
                total
            } else {
                65536
            })
            &&& p.count >= 1
            &&& p.count * p.file_bytes <= total < (p.count + 1) * p.file_bytes
        }),
{
    let p = profile(shape, total as int);
    let size = p.file_bytes as int;
    let t = total as int;
    assert(1 <= size <= t);
    let q = t / size;
    assert(q * size <= t < (q + 1) * size && 1 <= q <= t) by (nonlinear_arith)
        requires
            q == t / size,
            1 <= size <= t,
    ;
    assert(p.count == q);
}

/// One shape is run where it is asked for, and both where neither is.
pub proof fn both_shapes_run_unless_one_is_asked_for(total: int, want: Option<Seq<char>>)
    ensures
        selected(total, Some("large"@)) == seq![profile(Shape::Large, total)],
        selected(total, Some("small"@)) == seq![profile(Shape::Small, total)],
        want != Some("large"@) && want != Some("small"@) ==> selected(total, want) == seq![
            profile(Shape::Large, total),
            profile(Shape::Small, total),
        ],
{
    reveal_strlit("large");
    reveal_strlit("small");
    assert("large"@[0] != "small"@[0]);
}

/// The size that is given counts mebibytes; what is no number counts as not given, and then the default
/// counts gibibytes.
pub proof fn a_given_size_counts_mebibytes(n: nat, t: Seq<char>, i: int, default_gib: nat)
    requires
        n <= u64::MAX,
        0 < i < t.len(),
        !('0' <= t[i] <= '9'),
    ensures
        total_for(Some(dec(n)), default_gib) == n * 1048576,
        total_for(Some(t), default_gib) == default_gib * 1073741824,
        total_for(None, default_gib) == default_gib * 1073741824,
{
    a_written_number_reads_back(n, u64::MAX as nat);
    what_is_no_number_is_refused(u64::MAX as nat + 1, u64::MAX as nat, t, i);
}

/// Corpora take what each of them takes, and the largest of them is one of them, with none above it.
pub proof fn corpora_take_what_each_takes(ps: Seq<Profile>, block: nat, p: Profile, i: int)
    requires
        0 <= i < ps.len(),
    ensures
        footprints(ps.push(p), block, ps.len() as int + 1) == footprints(ps, block, ps.len() as int) + p.count * on_disk(
            p.file_bytes as nat,
            block,
        ),
        ps[i].count * on_disk(ps[i].file_bytes as nat, block) <= largest(ps, block, ps.len() as int),
        exists|k: int|
            0 <= k < ps.len() && largest(ps, block, ps.len() as int) == (#[trigger] ps[k]).count * on_disk(
                ps[k].file_bytes as nat,
                block,
            ),
        pass_bytes(ps.push(p), ps.len() as int + 1) == pass_bytes(ps, ps.len() as int) + p.count * p.file_bytes,
{
    let n = ps.len() as int;
    lemma_same_corpora(ps.push(p), ps, block, n);
    lemma_largest(ps, block, n, i);
}

proof fn lemma_same_corpora(a: Seq<Profile>, b: Seq<Profile>, block: nat, n: int)
    requires
        n <= a.len(),
        n <= b.len(),
        forall|i: int| 0 <= i < n ==> #[trigger] a[i] == b[i],
    ensures
        footprints(a, block, n) == footprints(b, block, n),
        pass_bytes(a, n) == pass_bytes(b, n),
    decreases n,
{
    if n > 0 {
        lemma_same_corpora(a, b, block, n - 1);
        assert(a[n - 1] == b[n - 1]);
    }
}

proof fn lemma_largest(ps: Seq<Profile>, block: nat, n: int, i: int)
    requires
        0 <= i < n <= ps.len(),
    ensures
        footprint(ps[i], block) <= largest(ps, block, n),
        exists|k: int| 0 <= k < n && largest(ps, block, n) == footprint(#[trigger] ps[k], block),
    decreases n,
{
    if n > 1 {
        if i < n - 1 {
            lemma_largest(ps, block, n - 1, i);
        } else {
            lemma_largest(ps, block, n - 1, 0);
        }
        let k = choose|k: int| 0 <= k < n - 1 && largest(ps, block, n - 1) == footprint(#[trigger] ps[k], block);
        if largest(ps, block, n) != footprint(ps[n - 1], block) {
            assert(largest(ps, block, n) == footprint(ps[k], block));
        } else {
            assert(largest(ps, block, n) == footprint(ps[n - 1], block));
        }
    } else {
        assert(largest(ps, block, 0) == 0);
        assert(largest(ps, block, n) == footprint(ps[0], block));
    }
}

/// The slack is a twentieth, rounded down, and 32 MiB.
pub proof fn the_slack_is_a_twentieth_and_more(bytes: nat)
    ensures
        20 * (margin(bytes) - bytes - 33554432) <= bytes < 20 * (margin(bytes) - bytes - 33554432) + 20,
{
}

/// A benchmark shows a size in the largest unit of which it has at least one.
pub proof fn a_benchmark_shows_sizes_in_their_unit(n: nat)
    ensures
        n < 1048576 ==> human_text(n) == dec(n) + " bytes"@,
        1048576 <= n < 1073741824 ==> human_text(n) == dec(rounded(n, 1048576)) + " MiB"@,
        1073741824 <= n < 9007199254740992 ==> human_text(n) == tenths_text(n, 1073741824) + " GiB"@,
{
    doubles_have_53_bits(n);
}

/// The second line of a text is what stands between its first line break and the next, or the end.
pub proof fn the_second_line_stands_between_breaks(a: Seq<char>, b: Seq<char>, c: Seq<char>)
    requires
        !a.contains('\n'),
        !b.contains('\n'),
    ensures
        second_line(a + seq!['\n'] + b + seq!['\n'] + c) == b,
        second_line(a + seq!['\n'] + b) == b,
        second_line(a) == Seq::<char>::empty(),
{
    let s = a + seq!['\n'] + b + seq!['\n'] + c;
    let t = a + seq!['\n'] + b;
    let rest = b + seq!['\n'] + c;
    assert(s.subrange(0, a.len() as int) =~= a);
    assert(t.subrange(0, a.len() as int) =~= a);
    assert(rest.subrange(0, b.len() as int) =~= b);
    lemma_break_after(s, a);
    lemma_break_after(t, a);
    lemma_break_after(rest, b);
    assert(s.subrange(a.len() as int + 1, s.len() as int) =~= rest);
    assert(t.subrange(a.len() as int + 1, t.len() as int) =~= b);
}

proof fn lemma_break_after(s: Seq<char>, a: Seq<char>)
    requires
        !a.contains('\n'),
        s.len() > a.len(),
        s.subrange(0, a.len() as int) == a,
        s[a.len() as int] == '\n',
    ensures
        s.contains('\n'),
        s.index_of_first('\n') == Some(a.len() as int),
{
    assert forall|j: int| 0 <= j < a.len() implies s[j] != '\n' by {
        assert(s.subrange(0, a.len() as int)[j] == s[j]);
        assert(a.contains(a[j]));
    }
    lemma_first_break(s, a.len() as int);
}

/// The filler is read off the generator's states, eight bytes of each, the least significant first.
pub proof fn filler_is_read_off_the_states(x: u64, k: int, j: int)
    requires
        0 <= k,
        0 <= j < 8,
    ensures
        filler(x, 8 * k + j) == ((state_after(x, k + 1) >> (8 * j) as u64) & 0xff) as u8,
        state_after(x, 0) == x,
        state_after(x, k + 1) == next_state(state_after(x, k)),
{
    let i = 8 * k + j;
    assert(i / 8 == k && i % 8 == j);
}

/// The sweep writes and reads each corpus with each number of workers, and removes it before the next.
pub proof fn one_corpus_at_a_time_is_swept(ps: Seq<Profile>, c: int, w: int)
    requires
        0 <= c < ps.len(),
        0 <= w < 6,
    ensures
        jobs_sweep_of(ps, ps.len() as int).len() == 13 * ps.len(),
        jobs_sweep_of(ps, ps.len() as int)[13 * c + w] == (SweepStep::Write {
            profile: ps[c],
            jobs: seq![1usize, 2, 4, 6, 8, 16][w],
        }),
        jobs_sweep_of(ps, ps.len() as int)[13 * c + 6 + w] == (SweepStep::Read {
            profile: ps[c],
            jobs: seq![1usize, 2, 4, 6, 8, 16][w],
        }),
        jobs_sweep_of(ps, ps.len() as int)[13 * c + 12] == (SweepStep::Remove { profile: ps[c] }),
{
    lemma_jobs_sweep(ps, ps.len() as int, c);
    let steps = jobs_steps(ps[c]);
    assert(steps[w] == (SweepStep::Write { profile: ps[c], jobs: worker_counts()[w] }));
    assert(steps[6 + w] == (SweepStep::Read { profile: ps[c], jobs: worker_counts()[w] }));
    assert(steps[12] == (SweepStep::Remove { profile: ps[c] }));
    assert(jobs_sweep_of(ps, ps.len() as int)[13 * c + (6 + w)] == steps[6 + w]);
}

proof fn lemma_jobs_sweep(ps: Seq<Profile>, n: int, c: int)
    requires
        0 <= c < n <= ps.len(),
    ensures
        jobs_sweep_of(ps, n).len() == 13 * n,
        jobs_sweep_of(ps, n).subrange(13 * c, 13 * c + 13) == jobs_steps(ps[c]),
        forall|w: int|
            0 <= w < 13 ==> jobs_sweep_of(ps, n)[13 * c + w] == #[trigger] jobs_steps(ps[c])[w],
    decreases n,
{
    let (a, b) = (jobs_sweep_of(ps, n - 1), jobs_steps(ps[n - 1]));
    assert(b.len() == 13);
    if n > 1 {
        lemma_jobs_sweep(ps, n - 1, if c < n - 1 { c } else { 0 });
    } else {
        assert(a =~= Seq::empty());
    }
    if c < n - 1 {
        assert((a + b).subrange(13 * c, 13 * c + 13) =~= a.subrange(13 * c, 13 * c + 13));
    } else {
        assert((a + b).subrange(13 * c, 13 * c + 13) =~= b);
    }
    assert forall|w: int| 0 <= w < 13 implies jobs_sweep_of(ps, n)[13 * c + w] == #[trigger] jobs_steps(ps[c])[w] by {
        assert((a + b).subrange(13 * c, 13 * c + 13)[w] == (a + b)[13 * c + w]);
    }
}

/// The copy sweep prepares each corpus once and copies it as often as asked with each number of workers.
pub proof fn every_copy_is_repeated(p: Profile, repeat: nat, w: int, k: int)
    requires
        0 <= w < 6,
        0 <= k < repeat,
    ensures
        copy_steps(p, repeat as int, 6).len() == 1 + 6 * repeat,
        copy_steps(p, repeat as int, 6)[0] == (SweepStep::Prepare { profile: p }),
        copy_steps(p, repeat as int, 6)[1 + w * repeat + k] == (SweepStep::Copy {
            profile: p,
            jobs: seq![1usize, 2, 4, 6, 8, 16][w],
        }),
{
    lemma_copy_steps(p, repeat as int, 6, w, k);
}

proof fn lemma_copy_steps(p: Profile, repeat: int, n: int, w: int, k: int)
    requires
        0 <= w < n <= 6,
        0 <= k < repeat,
    ensures
        copy_steps(p, repeat, n).len() == 1 + n * repeat,
        copy_steps(p, repeat, n)[0] == (SweepStep::Prepare { profile: p }),
        0 <= w * repeat && w * repeat + k < n * repeat,
        copy_steps(p, repeat, n)[1 + w * repeat + k] == (SweepStep::Copy { profile: p, jobs: worker_counts()[w] }),
    decreases n,
{
    let (a, b) = (copy_steps(p, repeat, n - 1), copies_of(p, worker_counts()[n - 1], repeat));
    assert(n * repeat == (n - 1) * repeat + repeat) by (nonlinear_arith);
    if n > 1 {
        lemma_copy_steps(p, repeat, n - 1, if w < n - 1 { w } else { 0 }, k);
    } else {
        assert(a == seq![SweepStep::Prepare { profile: p }]);
        assert((n - 1) * repeat == 0) by (nonlinear_arith)
            requires
                n == 1,
        ;
    }
    assert(a.len() == 1 + (n - 1) * repeat);
    if w == n - 1 {
        assert(0 <= w * repeat) by (nonlinear_arith)
            requires
                0 <= w,
                0 <= repeat,
        ;
        assert((a + b)[1 + w * repeat + k] == b[k]);
    } else {
        assert((a + b)[1 + w * repeat + k] == a[1 + w * repeat + k]);
    }
}

/// The copy sweep goes through the corpora one after the other.
pub proof fn every_corpus_is_copied_in_turn(ps: Seq<Profile>, repeat: int, n: int)
    requires
        0 < n <= ps.len(),
    ensures
        copy_sweep_of(ps, repeat, 0) == Seq::<SweepStep>::empty(),
        copy_sweep_of(ps, repeat, n) == copy_sweep_of(ps, repeat, n - 1) + copy_steps(ps[n - 1], repeat, 6),
{
}

} // verus!
