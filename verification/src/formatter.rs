//! The result presenter: renders the confirmed-duplicate map into a
//! tree-style report. Relative-path computation, byte-size rendering and
//! timestamp rendering come from outside collaborators; the padding,
//! the fingerprint hex rendering and the report assembly are verified.

use vstd::prelude::*;
use vstd::string::StrSliceExecFns;
use vstd::string::StringExecFns;

use crate::hashwise::ContentClassifier;
use crate::hashwise::GroupView;
use crate::params::Params;
use crate::record::FileRecord;
use crate::record::RecordView;

verus! {

/// The path of a file relative to the scan root, as the path renderer
/// computes it.
pub uninterp spec fn rel_path_of(path: Seq<char>, base: Seq<char>) -> Seq<char>;

/// Relies on pathdiff::diff_paths: the path of `path` relative to
/// `base`, a pure function of the two paths. A pair with no relative
/// form, or one that is not valid text, renders as the empty string,
/// the presenter's best-effort fallback.
#[verifier::external_body]
fn relative_path(path: &str, base: &str) -> (r: String)
    ensures
        r@ == rel_path_of(path@, base@),
{
    match pathdiff::diff_paths(path, base) {
        Some(p) => match p.to_str() {
            Some(s) => s.to_string(),
            None => String::new(),
        },
        None => String::new(),
    }
}

/// The human-readable rendering of a byte count.
pub uninterp spec fn size_text_of(size: u64) -> Seq<char>;

/// Relies on bytesize::ByteSize's display: the human-readable rendering
/// of a byte count, a pure function of the count.
#[verifier::external_body]
fn size_text(size: u64) -> (r: String)
    ensures
        r@ == size_text_of(size),
{
    bytesize::ByteSize::b(size).to_string()
}

/// The rendering of a modification time.
pub uninterp spec fn mtime_text_of(secs: i64) -> Seq<char>;

/// Relies on chrono: seconds since the Unix epoch rendered as
/// "%Y-%m-%d %H:%M:%S" in UTC, a pure function of the seconds;
/// out-of-range seconds render as the empty string.
#[verifier::external_body]
fn mtime_text(secs: i64) -> (r: String)
    ensures
        r@ == mtime_text_of(secs),
{
    match chrono::DateTime::<chrono::Utc>::from_timestamp(secs, 0) {
        Some(t) => t.format("%Y-%m-%d %H:%M:%S").to_string(),
        None => String::new(),
    }
}

/// `n` spaces.
pub open spec fn spaces(n: nat) -> Seq<char>
    decreases n,
{
    if n == 0 {
        Seq::empty()
    } else {
        spaces((n - 1) as nat).push(' ')
    }
}

/// `s` left-justified in a field of `w` characters: padded on the right
/// with spaces, or unchanged if it already fills the field.
pub open spec fn pad_right_spec(s: Seq<char>, w: nat) -> Seq<char> {
    if s.len() >= w {
        s
    } else {
        s + spaces((w - s.len()) as nat)
    }
}

/// `s` right-justified in a field of `w` characters.
pub open spec fn pad_left_spec(s: Seq<char>, w: nat) -> Seq<char> {
    if s.len() >= w {
        s
    } else {
        spaces((w - s.len()) as nat) + s
    }
}

fn spaces_string(n: usize) -> (r: String)
    ensures
        r@ == spaces(n as nat),
{
    let mut out = String::from_str("");
    proof {
        reveal_strlit("");
        reveal_strlit(" ");
        assert(out@ =~= spaces(0));
    }
    let mut i: usize = 0;
    while i < n
        invariant
            i <= n,
            out@ == spaces(i as nat),
        decreases n - i,
    {
        out.append(" ");
        proof {
            reveal_strlit(" ");
            assert(out@ =~= spaces((i + 1) as nat));
        }
        i = i + 1;
    }
    out
}

fn pad_right(s: String, width: usize) -> (r: String)
    ensures
        r@ == pad_right_spec(s@, width as nat),
{
    let len = s.as_str().unicode_len();
    if len >= width {
        s
    } else {
        let mut out = s;
        let pad = spaces_string(width - len);
        out.append(pad.as_str());
        out
    }
}

fn pad_left(s: String, width: usize) -> (r: String)
    ensures
        r@ == pad_left_spec(s@, width as nat),
{
    let len = s.as_str().unicode_len();
    if len >= width {
        s
    } else {
        let mut out = spaces_string(width - len);
        out.append(s.as_str());
        out
    }
}

/// The hexadecimal digit for a value below sixteen.
pub open spec fn hex_char(d: u128) -> char {
    if d == 0 {
        '0'
    } else if d == 1 {
        '1'
    } else if d == 2 {
        '2'
    } else if d == 3 {
        '3'
    } else if d == 4 {
        '4'
    } else if d == 5 {
        '5'
    } else if d == 6 {
        '6'
    } else if d == 7 {
        '7'
    } else if d == 8 {
        '8'
    } else if d == 9 {
        '9'
    } else if d == 10 {
        'a'
    } else if d == 11 {
        'b'
    } else if d == 12 {
        'c'
    } else if d == 13 {
        'd'
    } else if d == 14 {
        'e'
    } else {
        'f'
    }
}

/// The lowercase hexadecimal rendering of `n`, without leading zeros.
pub open spec fn hex_seq(n: u128) -> Seq<char>
    decreases n,
{
    if n < 16 {
        seq![hex_char(n)]
    } else {
        hex_seq(n / 16).push(hex_char(n % 16))
    }
}

fn hex_digit_string(d: u128) -> (r: String)
    requires
        d < 16,
    ensures
        r@ == seq![hex_char(d)],
{
    proof {
        reveal_strlit("0");
        reveal_strlit("1");
        reveal_strlit("2");
        reveal_strlit("3");
        reveal_strlit("4");
        reveal_strlit("5");
        reveal_strlit("6");
        reveal_strlit("7");
        reveal_strlit("8");
        reveal_strlit("9");
        reveal_strlit("a");
        reveal_strlit("b");
        reveal_strlit("c");
        reveal_strlit("d");
        reveal_strlit("e");
        reveal_strlit("f");
    }
    let s: &str = if d == 0 {
        "0"
    } else if d == 1 {
        "1"
    } else if d == 2 {
        "2"
    } else if d == 3 {
        "3"
    } else if d == 4 {
        "4"
    } else if d == 5 {
        "5"
    } else if d == 6 {
        "6"
    } else if d == 7 {
        "7"
    } else if d == 8 {
        "8"
    } else if d == 9 {
        "9"
    } else if d == 10 {
        "a"
    } else if d == 11 {
        "b"
    } else if d == 12 {
        "c"
    } else if d == 13 {
        "d"
    } else if d == 14 {
        "e"
    } else {
        "f"
    };
    let r = String::from_str(s);
    proof {
        assert(r@ =~= seq![hex_char(d)]);
    }
    r
}

fn hex_string(n: u128) -> (r: String)
    ensures
        r@ == hex_seq(n),
    decreases n,
{
    if n < 16 {
        hex_digit_string(n)
    } else {
        proof {
            assert(n / 16 < n) by (nonlinear_arith)
                requires
                    n >= 16,
            ;
        }
        let mut out = hex_string(n / 16);
        let digit = hex_digit_string(n % 16);
        out.append(digit.as_str());
        proof {
            assert(out@ =~= hex_seq(n / 16).push(hex_char(n % 16)));
        }
        out
    }
}

/// One rendered member row: the tree-branch glyph (the last member gets
/// the terminal glyph), the relative path justified to the maximum path
/// length, the size and the modification time, tab-separated.
pub open spec fn member_line_spec(r: RecordView, base: Seq<char>, width: nat, is_last: bool) -> Seq<
    char,
> {
    (if is_last {
        "└─"@
    } else {
        "├─"@
    }) + "\t"@ + pad_right_spec(rel_path_of(r.path, base), width) + "\t"@ + pad_left_spec(
        size_text_of(r.size),
        12,
    ) + "\t"@ + mtime_text_of(r.modified) + "\n"@
}

/// The member rows of a group from member `j` on.
pub open spec fn member_lines_from(ms: Seq<RecordView>, base: Seq<char>, width: nat, j: int) -> Seq<
    char,
>
    decreases ms.len() - j,
{
    if j < 0 || j >= ms.len() {
        Seq::empty()
    } else {
        member_line_spec(ms[j], base, width, j == ms.len() - 1) + member_lines_from(
            ms,
            base,
            width,
            j + 1,
        )
    }
}

/// One rendered group: a highlighted header identifying the
/// fingerprint, one row per member, and a blank separator line.
pub open spec fn group_block_spec(g: GroupView, base: Seq<char>, width: nat) -> Seq<char> {
    "\u{1b}[33m"@ + pad_left_spec(hex_seq(g.fp), 32) + "\u{1b}[0m"@ + "\n"@ + member_lines_from(
        g.members,
        base,
        width,
        0,
    ) + "\n"@
}

/// The rendered blocks of every confirmed (two or more member) group
/// from group `j` on; groups below two members are skipped.
pub open spec fn report_blocks_from(gs: Seq<GroupView>, base: Seq<char>, width: nat, j: int) -> Seq<
    char,
>
    decreases gs.len() - j,
{
    if j < 0 || j >= gs.len() {
        Seq::empty()
    } else {
        (if gs[j].members.len() >= 2 {
            group_block_spec(gs[j], base, width)
        } else {
            Seq::empty()
        }) + report_blocks_from(gs, base, width, j + 1)
    }
}

/// Whether any group was confirmed as a duplicate set.
pub open spec fn has_confirmed(gs: Seq<GroupView>) -> bool {
    exists|i: int| 0 <= i < gs.len() && (#[trigger] gs[i]).members.len() >= 2
}

/// The whole report: leading spacing (two blank lines when a progress
/// display was drawn above, one otherwise), then either every confirmed
/// group's block, or the no-duplicates message exactly once.
pub open spec fn report_spec(gs: Seq<GroupView>, base: Seq<char>, width: nat, progress: bool) -> Seq<
    char,
> {
    (if progress {
        "\n\n"@
    } else {
        "\n"@
    }) + (if has_confirmed(gs) {
        report_blocks_from(gs, base, width, 0)
    } else {
        "No duplicates found matching your search criteria.\n"@
    })
}

/// The longest rendered relative path among the given members.
pub open spec fn member_max_len(ms: Seq<RecordView>, base: Seq<char>) -> nat
    decreases ms.len(),
{
    if ms.len() == 0 {
        0
    } else {
        let rest = member_max_len(ms.drop_last(), base);
        let l = rel_path_of(ms.last().path, base).len();
        if l > rest {
            l
        } else {
            rest
        }
    }
}

/// The longest rendered relative path across exactly the members of
/// confirmed (two or more member) groups.
pub open spec fn confirmed_max_len(gs: Seq<GroupView>, base: Seq<char>) -> nat
    decreases gs.len(),
{
    if gs.len() == 0 {
        0
    } else {
        let rest = confirmed_max_len(gs.drop_last(), base);
        let l = if gs.last().members.len() >= 2 {
            member_max_len(gs.last().members, base)
        } else {
            0
        };
        if l > rest {
            l
        } else {
            rest
        }
    }
}

/// The report's façade: fixed-width path, size and time rendering, and
/// the final tree-style report.
pub struct Formatter;

impl Formatter {
    /// A file's path relative to the scan root, left-justified to the
    /// maximum path length.
    pub fn human_path(file: &FileRecord, aargs: &Params, max_path_length: usize) -> (r: String)
        ensures
            r@ == pad_right_spec(rel_path_of(file.path@, aargs.directory@), max_path_length as nat),
    {
        let rel = relative_path(file.path.as_str(), aargs.get_directory().as_str());
        pad_right(rel, max_path_length)
    }

    /// A file's byte size, right-justified to twelve characters.
    pub fn human_filesize(file: &FileRecord) -> (r: String)
        ensures
            r@ == pad_left_spec(size_text_of(file.size), 12),
    {
        pad_left(size_text(file.size), 12)
    }

    /// A file's modification time.
    pub fn human_mtime(file: &FileRecord) -> (r: String)
        ensures
            r@ == mtime_text_of(file.modified),
    {
        mtime_text(file.modified)
    }

    fn render_group(dups: &ContentClassifier, j: usize, width: usize, aargs: &Params) -> (r: String)
        requires
            j < dups.groups_model().len(),
        ensures
            r@ == group_block_spec(dups.groups_model()[j as int], aargs.directory@, width as nat),
    {
        let ghost g = dups.groups_model()[j as int];
        let ghost base = aargs.directory@;
        let mut out = String::from_str("\u{1b}[33m");
        let header = pad_left(hex_string(dups.group_fingerprint(j)), 32);
        out.append(header.as_str());
        out.append("\u{1b}[0m");
        out.append("\n");
        proof {
            assert(out@ =~= "\u{1b}[33m"@ + pad_left_spec(hex_seq(g.fp), 32) + "\u{1b}[0m"@
                + "\n"@);
        }
        let ghost head = out@;
        let n = dups.group_len(j);
        let mut ji: usize = 0;
        while ji < n
            invariant
                dups.groups_model()[j as int] == g,
                j < dups.groups_model().len(),
                base == aargs.directory@,
                n == g.members.len(),
                ji <= n,
                out@ + member_lines_from(g.members, base, width as nat, ji as int) == head
                    + member_lines_from(g.members, base, width as nat, 0),
            decreases n - ji,
        {
            let rec = dups.group_member(j, ji);
            let ghost pre = out@;
            if ji == n - 1 {
                out.append("└─");
            } else {
                out.append("├─");
            }
            out.append("\t");
            let path = Self::human_path(&rec, aargs, width);
            out.append(path.as_str());
            out.append("\t");
            let size = Self::human_filesize(&rec);
            out.append(size.as_str());
            out.append("\t");
            let mtime = Self::human_mtime(&rec);
            out.append(mtime.as_str());
            out.append("\n");
            proof {
                let line = member_line_spec(
                    g.members[ji as int],
                    base,
                    width as nat,
                    ji as int == g.members.len() - 1,
                );
                assert(out@ =~= pre + line);
                assert(member_lines_from(g.members, base, width as nat, ji as int) == line
                    + member_lines_from(g.members, base, width as nat, ji as int + 1));
                assert((pre + line) + member_lines_from(g.members, base, width as nat, ji as int + 1)
                    =~= pre + (line + member_lines_from(g.members, base, width as nat, ji as int + 1)));
            }
            ji = ji + 1;
        }
        out.append("\n");
        proof {
            assert(member_lines_from(g.members, base, width as nat, n as int) =~= Seq::<
                char,
            >::empty());
            assert(out@ =~= group_block_spec(g, base, width as nat));
        }
        out
    }

    /// Renders the confirmed-duplicate map as the final report: every
    /// group with at least two members becomes a header and one row per
    /// member; a run without a confirmed group reports the
    /// no-duplicates message exactly once.
    pub fn render(dups: &ContentClassifier, max_path_len: u64, aargs: &Params) -> (r: String)
        ensures
            r@ == report_spec(
                dups.groups_model(),
                aargs.directory@,
                (max_path_len as usize) as nat,
                aargs.progress,
            ),
    {
        let ghost gs = dups.groups_model();
        let ghost base = aargs.directory@;
        let width = max_path_len as usize;
        let mut out = if aargs.progress {
            String::from_str("\n\n")
        } else {
            String::from_str("\n")
        };
        let ghost lead = out@;
        let count = dups.group_count();
        let mut any = false;
        let mut i: usize = 0;
        while i < count
            invariant
                gs == dups.groups_model(),
                count == gs.len(),
                i <= count,
                any <==> exists|t: int| 0 <= t < i && (#[trigger] gs[t]).members.len() >= 2,
            decreases count - i,
        {
            if dups.group_len(i) >= 2 {
                any = true;
                proof {
                    assert(0 <= (i as int) && (i as int) < i + 1);
                    assert(gs[i as int].members.len() >= 2);
                }
            } else {
                proof {
                    if !any {
                        assert forall|t: int|
                            0 <= t < i + 1 implies !((#[trigger] gs[t]).members.len() >= 2) by {}
                    }
                }
            }
            i = i + 1;
        }
        if !any {
            out.append("No duplicates found matching your search criteria.\n");
            proof {
                assert(out@ =~= report_spec(gs, base, (max_path_len as usize) as nat, aargs.progress));
            }
            return out;
        }
        let mut j: usize = 0;
        while j < count
            invariant
                gs == dups.groups_model(),
                base == aargs.directory@,
                width == max_path_len as usize,
                count == gs.len(),
                j <= count,
                out@ + report_blocks_from(gs, base, width as nat, j as int) == lead
                    + report_blocks_from(gs, base, width as nat, 0),
            decreases count - j,
        {
            let ghost pre = out@;
            let ghost blk = if gs[j as int].members.len() >= 2 {
                group_block_spec(gs[j as int], base, width as nat)
            } else {
                Seq::<char>::empty()
            };
            if dups.group_len(j) >= 2 {
                let block = Self::render_group(dups, j, width, aargs);
                out.append(block.as_str());
            }
            proof {
                assert(out@ =~= pre + blk);
                assert(report_blocks_from(gs, base, width as nat, j as int) == blk
                    + report_blocks_from(gs, base, width as nat, j as int + 1));
                assert((pre + blk) + report_blocks_from(gs, base, width as nat, j as int + 1) =~= pre
                    + (blk + report_blocks_from(gs, base, width as nat, j as int + 1)));
            }
            j = j + 1;
        }
        proof {
            assert(report_blocks_from(gs, base, width as nat, count as int) =~= Seq::<char>::empty());
            assert(out@ =~= lead + report_blocks_from(gs, base, width as nat, 0));
            assert(has_confirmed(gs));
        }
        out
    }

    /// The Maximum Path Length column width: after fingerprinting
    /// completes this equals the longest rendered relative path across
    /// exactly the files that ended up in a confirmed (two or more
    /// member) duplicate group, not across all scanned files.
    pub fn max_confirmed_path_len(dups: &ContentClassifier, aargs: &Params) -> (r: u64)
        ensures
            r as nat == confirmed_max_len(dups.groups_model(), aargs.directory@),
    {
        let ghost gs = dups.groups_model();
        let ghost base = aargs.directory@;
        let count = dups.group_count();
        let mut acc: u64 = 0;
        let mut i: usize = 0;
        while i < count
            invariant
                gs == dups.groups_model(),
                base == aargs.directory@,
                count == gs.len(),
                i <= count,
                acc as nat == confirmed_max_len(gs.take(i as int), base),
            decreases count - i,
        {
            let ghost g = gs[i as int];
            let n = dups.group_len(i);
            let mut group_best: u64 = 0;
            if n >= 2 {
                let mut m: u64 = 0;
                let mut ji: usize = 0;
                while ji < n
                    invariant
                        gs == dups.groups_model(),
                        base == aargs.directory@,
                        count == gs.len(),
                        i < count,
                        g == gs[i as int],
                        n == g.members.len(),
                        ji <= n,
                        m as nat == member_max_len(g.members.take(ji as int), base),
                    decreases n - ji,
                {
                    let rec = dups.group_member(i, ji);
                    let rel = relative_path(rec.path.as_str(), aargs.get_directory().as_str());
                    let l = rel.as_str().unicode_len();
                    proof {
                        assert(g.members.take(ji + 1 as int).drop_last() =~= g.members.take(
                            ji as int,
                        ));
                        assert(g.members.take(ji + 1 as int).last() == g.members[ji as int]);
                    }
                    if (l as u64) > m {
                        m = l as u64;
                    }
                    ji = ji + 1;
                }
                proof {
                    assert(g.members.take(n as int) =~= g.members);
                }
                group_best = m;
            }
            proof {
                assert(gs.take(i + 1 as int).drop_last() =~= gs.take(i as int));
                assert(gs.take(i + 1 as int).last() == gs[i as int]);
            }
            if group_best > acc {
                acc = group_best;
            }
            i = i + 1;
        }
        proof {
            assert(gs.take(count as int) =~= gs);
        }
        acc
    }
}

} // verus!
