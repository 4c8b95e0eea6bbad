//! Inline `tools:off` / `tools:on` region scanning.
//!
//! A region opens on a whole-line comment `tools:off [TOOL[,TOOL,...]]` and
//! closes on the next `tools:on`. Nested `tools:off` markers are ignored
//! until the next `tools:on` closes the outermost region, and an unclosed
//! `tools:off` extends to the end of the file.

use vstd::prelude::*;
use std::ops::Range;
use crate::registry::SlocMode;
use crate::text::{
    byte_len, bytes_between, chars_eq, chars_eq_ignore_ascii_case, chars_of, eq_ignore_ascii_case,
    find_char, first_index, lemma_first_index, no_newline_end, seg_end, segment_end,
    strip_prefix, strip_prefix_slice, strip_suffix, strip_suffix_slice, string_from_chars,
    trim, trim_slice, utf8_len,
};

verus! {

/// The character views of a sequence of strings.
pub open spec fn strings_view(v: Seq<String>) -> Seq<Seq<char>> {
    v.map_values(|s: String| s@)
}

/// The view of an optional list of tool names.
pub open spec fn tools_view(t: Option<Vec<String>>) -> Option<Seq<Seq<char>>> {
    match t {
        Some(v) => Some(strings_view(v@)),
        None => None,
    }
}

/// A source region marked off by a `tools:off` / `tools:on` comment pair.
#[derive(Debug, PartialEq, Eq)]
pub struct IgnoredRegion {
    /// Byte offsets into the source, spanning from the start of the
    /// `tools:off` line to the end of the matching `tools:on` line.
    pub byte_range: Range<usize>,
    /// 1-indexed, inclusive line numbers for the same span.
    pub line_range: Range<usize>,
    /// Tools this region applies to. `None` means all tools (no qualifier on
    /// `tools:off`).
    pub tools: Option<Vec<String>>,
}

impl Clone for IgnoredRegion {
    fn clone(&self) -> (r: Self)
        ensures
            r.byte_range == self.byte_range,
            r.line_range == self.line_range,
    {
        IgnoredRegion {
            byte_range: Range { start: self.byte_range.start, end: self.byte_range.end },
            line_range: Range { start: self.line_range.start, end: self.line_range.end },
            tools: self.tools.clone(),
        }
    }
}

/// The mathematical content of an [`IgnoredRegion`].
#[verifier::ext_equal]
pub struct RegionModel {
    pub bytes: (int, int),
    pub lines: (int, int),
    pub tools: Option<Seq<Seq<char>>>,
}

impl View for IgnoredRegion {
    type V = RegionModel;

    open spec fn view(&self) -> RegionModel {
        RegionModel {
            bytes: (self.byte_range.start as int, self.byte_range.end as int),
            lines: (self.line_range.start as int, self.line_range.end as int),
            tools: tools_view(self.tools),
        }
    }
}

/// The views of a sequence of regions.
pub open spec fn regions_view(v: Seq<IgnoredRegion>) -> Seq<RegionModel> {
    v.map_values(|r: IgnoredRegion| r@)
}

/// A region with tool list `tools` scopes `tool`: every tool when the list
/// is absent, else the tools named in it, compared ignoring ASCII case.
pub open spec fn scopes_tool(tools: Option<Seq<Seq<char>>>, tool: Seq<char>) -> bool {
    match tools {
        None => true,
        Some(ts) => tool_listed(ts, tool),
    }
}

/// `tool` is among `ts`, ignoring ASCII case.
pub open spec fn tool_listed(ts: Seq<Seq<char>>, tool: Seq<char>) -> bool {
    exists|k: int| 0 <= k < ts.len() && eq_ignore_ascii_case(#[trigger] ts[k], tool)
}

impl IgnoredRegion {
    /// Whether this region scopes the given tool (e.g. `"knots"`, `"funky"`,
    /// `"sqc"`). An unqualified `tools:off` (no tool list) scopes every tool.
    pub fn applies_to(&self, tool: &str) -> (r: bool)
        ensures
            r == scopes_tool(self@.tools, tool@),
    {
        match &self.tools {
            None => true,
            Some(tools) => {
                assert(self@.tools == Some(strings_view(tools@)));
                let want = chars_of(tool);
                let mut i: usize = 0;
                while i < tools.len()
                    invariant
                        i <= tools@.len(),
                        want@ == tool@,
                        self.tools == Some(*tools),
                        self@.tools == Some(strings_view(tools@)),
                        forall|k: int|
                            0 <= k < i ==> !eq_ignore_ascii_case(#[trigger] strings_view(tools@)[k], tool@),
                    decreases tools.len() - i,
                {
                    let have = chars_of(tools[i].as_str());
                    assert(strings_view(tools@).len() == tools@.len());
                    if chars_eq_ignore_ascii_case(have.as_slice(), want.as_slice()) {
                        assert(strings_view(tools@)[i as int] == tools@[i as int]@);
                        assert(eq_ignore_ascii_case(strings_view(tools@)[i as int], tool@));
                        assert(tool_listed(strings_view(tools@), tool@));
                        return true;
                    }
                    i = i + 1;
                }
                false
            },
        }
    }
}

/// The line-comment prefix of a comment style.
pub open spec fn line_prefix(mode: SlocMode) -> Seq<char> {
    match mode {
        SlocMode::Default => "//"@,
        SlocMode::Python => "#"@,
        SlocMode::Ada => "--"@,
        SlocMode::Lua => "--"@,
        SlocMode::Fortran => "!"@,
    }
}

/// The single-line block-comment delimiters of a comment style, if any.
pub open spec fn block_delims(mode: SlocMode) -> Option<(Seq<char>, Seq<char>)> {
    match mode {
        SlocMode::Default => Some(("/*"@, "*/"@)),
        SlocMode::Lua => Some(("--[["@, "]]"@)),
        _ => None,
    }
}

/// If `line` is entirely a comment under `mode`'s syntax, the trimmed text
/// inside the comment.
pub open spec fn spec_marker_text(line: Seq<char>, mode: SlocMode) -> Option<Seq<char>> {
    let t = trim(line);
    match strip_prefix(t, line_prefix(mode)) {
        Some(rest) => Some(trim(rest)),
        None => match block_delims(mode) {
            Some((open, close)) => match strip_prefix(t, open) {
                Some(rest) => match strip_suffix(rest, close) {
                    Some(body) => Some(trim(body)),
                    None => None,
                },
                None => None,
            },
            None => None,
        },
    }
}

/// The line-comment prefix and the single-line block-comment delimiters
/// for a comment style.
fn comment_syntax(mode: SlocMode) -> (r: (&'static str, Option<(&'static str, &'static str)>))
    ensures
        r.0@ == line_prefix(mode),
        match block_delims(mode) {
            Some((o, c)) => r.1 matches Some((ro, rc)) && ro@ == o && rc@ == c,
            None => r.1 is None,
        },
{
    match mode {
        SlocMode::Default => ("//", Some(("/*", "*/"))),
        SlocMode::Python => ("#", None),
        SlocMode::Ada => ("--", None),
        SlocMode::Lua => ("--", Some(("--[[", "]]"))),
        SlocMode::Fortran => ("!", None),
    }
}

/// If `line` is entirely a comment under `mode`'s syntax, returns the
/// trimmed text inside the comment. Otherwise `None`.
pub fn marker_text(line: &[char], mode: SlocMode) -> (r: Option<&[char]>)
    ensures
        match r {
            Some(t) => spec_marker_text(line@, mode) == Some(t@),
            None => spec_marker_text(line@, mode) is None,
        },
{
    let trimmed = trim_slice(line);
    let (prefix, block) = comment_syntax(mode);
    let p = chars_of(prefix);
    if let Some(rest) = strip_prefix_slice(trimmed, p.as_slice()) {
        return Some(trim_slice(rest));
    }
    if let Some((open, close)) = block {
        let o = chars_of(open);
        let c = chars_of(close);
        if let Some(rest) = strip_prefix_slice(trimmed, o.as_slice()) {
            if let Some(body) = strip_suffix_slice(rest, c.as_slice()) {
                return Some(trim_slice(body));
            }
        }
    }
    None
}

/// The non-empty, trimmed fields of the comma-separated list `s[pos..]`.
pub open spec fn comma_fields(s: Seq<char>, pos: int) -> Seq<Seq<char>>
    decreases s.len() - pos,
{
    if pos < 0 || pos > s.len() {
        Seq::empty()
    } else {
        proof {
            lemma_first_index(s, ',', pos);
        }
        let k = first_index(s, ',', pos);
        let f = trim(s.subrange(pos, k));
        let rest = if k < s.len() {
            comma_fields(s, k + 1)
        } else {
            Seq::empty()
        };
        if f.len() > 0 {
            seq![f] + rest
        } else {
            rest
        }
    }
}

/// `comma_fields(s, 0)`, as owned strings.
fn split_fields(s: &[char]) -> (r: Vec<String>)
    ensures
        strings_view(r@) == comma_fields(s@, 0),
{
    let mut out: Vec<String> = Vec::new();
    let mut pos: usize = 0;
    loop
        invariant_except_break
            strings_view(out@) + comma_fields(s@, pos as int) == comma_fields(s@, 0),
        invariant
            pos <= s@.len(),
        ensures
            strings_view(out@) == comma_fields(s@, 0),
        decreases s@.len() - pos,
    {
        let k = find_char(s, ',', pos);
        let f = trim_slice(&s[pos..k]);
        let ghost before = out@;
        if f.len() > 0 {
            let st = string_from_chars(f);
            out.push(st);
            assert(strings_view(out@) =~= strings_view(before).push(f@));
        }
        if k >= s.len() {
            assert(comma_fields(s@, pos as int) == (if f@.len() > 0 {
                seq![f@]
            } else {
                Seq::<Seq<char>>::empty()
            }) + Seq::<Seq<char>>::empty());
            assert(strings_view(out@) =~= comma_fields(s@, 0));
            break ;
        }
        proof {
            let rest = comma_fields(s@, k + 1);
            if f@.len() > 0 {
                assert(comma_fields(s@, pos as int) == seq![f@] + rest);
                assert(strings_view(out@) + rest =~= strings_view(before) + (seq![f@] + rest));
            } else {
                assert(comma_fields(s@, pos as int) == rest);
            }
        }
        pos = k + 1;
    }
    out
}

/// A recognized region marker.
pub enum MarkerModel {
    Off(Option<Seq<Seq<char>>>),
    On,
}

enum Marker {
    Off(Option<Vec<String>>),
    On,
}

/// Comment text as a `tools:off` / `tools:on` marker; `None` for an
/// ordinary comment.
pub open spec fn spec_parse_marker(text: Seq<char>) -> Option<MarkerModel> {
    if text == "tools:on"@ {
        Some(MarkerModel::On)
    } else if text == "tools:off"@ {
        Some(MarkerModel::Off(None))
    } else {
        match strip_prefix(text, "tools:off "@) {
            Some(rest) => if comma_fields(rest, 0).len() > 0 {
                Some(MarkerModel::Off(Some(comma_fields(rest, 0))))
            } else {
                None
            },
            None => None,
        }
    }
}

/// Parses comment text as a `tools:off`/`tools:on` marker.
fn parse_marker(text: &[char]) -> (r: Option<Marker>)
    ensures
        match r {
            Some(Marker::On) => spec_parse_marker(text@) == Some(MarkerModel::On),
            Some(Marker::Off(t)) => spec_parse_marker(text@) == Some(MarkerModel::Off(tools_view(t))),
            None => spec_parse_marker(text@) is None,
        },
{
    let on = chars_of("tools:on");
    if chars_eq(text, on.as_slice()) {
        return Some(Marker::On);
    }
    let off = chars_of("tools:off");
    if chars_eq(text, off.as_slice()) {
        return Some(Marker::Off(None));
    }
    let off_sp = chars_of("tools:off ");
    if let Some(rest) = strip_prefix_slice(text, off_sp.as_slice()) {
        let tools = split_fields(rest);
        if tools.len() > 0 {
            return Some(Marker::Off(Some(tools)));
        }
    }
    None
}

/// An open `tools:off`: its start byte, its line, and its tool list.
pub type PendingModel = Option<(int, int, Option<Seq<Seq<char>>>)>;

pub open spec fn pending_view(p: Option<(usize, usize, Option<Vec<String>>)>) -> PendingModel {
    match p {
        Some((b, l, t)) => Some((b as int, l as int, tools_view(t))),
        None => None,
    }
}

/// One line of the scan: `content` is the line without its newline,
/// starting at byte `start` and numbered `line_no`.
pub open spec fn region_step(
    regions: Seq<RegionModel>,
    pending: PendingModel,
    content: Seq<char>,
    start: int,
    line_no: int,
    mode: SlocMode,
) -> (Seq<RegionModel>, PendingModel) {
    match spec_marker_text(content, mode) {
        Some(text) => match spec_parse_marker(text) {
            Some(MarkerModel::Off(tools)) => if pending is None {
                (regions, Some((start, line_no, tools)))
            } else {
                (regions, pending)
            },
            Some(MarkerModel::On) => match pending {
                Some((b, l, t)) => (
                    regions.push(
                        RegionModel {
                            bytes: (b, start + byte_len(content)),
                            lines: (l, line_no),
                            tools: t,
                        },
                    ),
                    None,
                ),
                None => (regions, None),
            },
            None => (regions, pending),
        },
        None => (regions, pending),
    }
}

/// The regions found from character position `i` on (a line start), after
/// `line_no` lines that left `regions` found and `pending` open.
pub open spec fn regions_from(
    s: Seq<char>,
    mode: SlocMode,
    i: int,
    line_no: int,
    regions: Seq<RegionModel>,
    pending: PendingModel,
) -> Seq<RegionModel>
    decreases s.len() - i,
{
    if i < 0 || i >= s.len() {
        match pending {
            Some((b, l, t)) => regions.push(
                RegionModel { bytes: (b, byte_len(s) as int), lines: (l, line_no), tools: t },
            ),
            None => regions,
        }
    } else {
        proof {
            crate::text::lemma_seg_end(s, i);
        }
        let e = seg_end(s, i);
        let content = s.subrange(i, no_newline_end(s, i, e));
        let next = region_step(regions, pending, content, byte_len(s.take(i)) as int, line_no + 1, mode);
        regions_from(s, mode, e, line_no + 1, next.0, next.1)
    }
}

/// Applies one line (`content`, starting at byte `line_start`, of byte
/// length `clen`, numbered `line_no`) to the scan state.
fn scan_line(
    regions: &mut Vec<IgnoredRegion>,
    pending: &mut Option<(usize, usize, Option<Vec<String>>)>,
    content: &[char],
    line_start: usize,
    clen: usize,
    line_no: usize,
    mode: SlocMode,
)
    requires
        clen == byte_len(content@),
        line_start + clen <= usize::MAX,
    ensures
        (regions_view(final(regions)@), pending_view(*final(pending))) == region_step(
            regions_view(old(regions)@),
            pending_view(*old(pending)),
            content@,
            line_start as int,
            line_no as int,
            mode,
        ),
{
    let ghost next = region_step(
        regions_view(regions@),
        pending_view(*pending),
        content@,
        line_start as int,
        line_no as int,
        mode,
    );
    match marker_text(content, mode) {
        Some(text) => match parse_marker(text) {
            Some(Marker::Off(tools)) => {
                if pending.is_none() {
                    *pending = Some((line_start, line_no, tools));
                }
            },
            Some(Marker::On) => {
                let taken = pending.take();
                match taken {
                    Some((b, l, t)) => {
                        let ghost before = regions_view(regions@);
                        let region = IgnoredRegion {
                            byte_range: Range { start: b, end: line_start + clen },
                            line_range: Range { start: l, end: line_no },
                            tools: t,
                        };
                        regions.push(region);
                        assert(regions_view(regions@) =~= before.push(region@));
                    },
                    None => {},
                }
            },
            None => {},
        },
        None => {},
    }
}

/// The `tools:off` / `tools:on` regions of `s` under `mode`'s comment
/// syntax.
pub open spec fn spec_ignored_regions(s: Seq<char>, mode: SlocMode) -> Seq<RegionModel> {
    regions_from(s, mode, 0, 0, Seq::empty(), None)
}

/// Scans `source` for `tools:off` / `tools:on` region markers, using the
/// comment syntax implied by `sloc_mode`.
///
/// Nested `tools:off` markers are ignored until the next `tools:on` closes
/// the outermost region. An unclosed `tools:off` extends to end of file.
pub fn ignored_regions(source: &str, sloc_mode: SlocMode) -> (r: Vec<IgnoredRegion>)
    ensures
        regions_view(r@) == spec_ignored_regions(source@, sloc_mode),
{
    let total = utf8_len(source);
    let s = chars_of(source);
    let mut regions: Vec<IgnoredRegion> = Vec::new();
    let mut pending: Option<(usize, usize, Option<Vec<String>>)> = None;
    let mut byte_offset: usize = 0;
    let mut line_no: usize = 0;
    let mut pos: usize = 0;
    assert(s@.take(0) =~= Seq::<char>::empty());
    proof {
        crate::text::lemma_byte_len_empty();
    }
    assert(regions_view(regions@) =~= Seq::<RegionModel>::empty());
    while pos < s.len()
        invariant
            s@ == source@,
            total == byte_len(s@),
            pos <= s@.len(),
            line_no <= pos,
            byte_offset == byte_len(s@.take(pos as int)),
            regions_from(s@, sloc_mode, pos as int, line_no as int, regions_view(regions@), pending_view(pending))
                == spec_ignored_regions(s@, sloc_mode),
        decreases s.len() - pos,
    {
        let e = segment_end(s.as_slice(), pos);
        let ce = if s[e - 1] == '\n' {
            e - 1
        } else {
            e
        };
        let content = &s.as_slice()[pos..ce];
        let line_start = byte_offset;
        let clen = bytes_between(s.as_slice(), pos, ce);
        line_no = line_no + 1;
        proof {
            crate::text::lemma_byte_len_take_mono(s@, ce as int, s@.len() as int);
            crate::text::lemma_byte_len_take_mono(s@, e as int, s@.len() as int);
            assert(s@.take(s@.len() as int) =~= s@);
            crate::text::lemma_byte_len_subrange(s@, pos as int, ce as int);
        }
        scan_line(&mut regions, &mut pending, content, line_start, clen, line_no, sloc_mode);
        let rest = bytes_between(s.as_slice(), ce, e);
        byte_offset = line_start + clen + rest;
        pos = e;
    }
    match pending {
        Some((b, l, t)) => {
            let ghost before = regions_view(regions@);
            let region = IgnoredRegion {
                byte_range: Range { start: b, end: total },
                line_range: Range { start: l, end: line_no },
                tools: t,
            };
            regions.push(region);
            assert(regions_view(regions@) =~= before.push(region@));
        },
        None => {},
    }
    regions
}

/// Regions with sane spans (start before end, lines 1-based), in order
/// without overlap.
pub open spec fn regions_ordered(rs: Seq<RegionModel>) -> bool {
    &&& forall|k: int|
        0 <= k < rs.len() ==> 0 <= (#[trigger] rs[k]).bytes.0 <= rs[k].bytes.1 && 1 <= rs[k].lines.0
            <= rs[k].lines.1
    &&& forall|i: int, j: int|
        0 <= i < j < rs.len() ==> (#[trigger] rs[i]).bytes.1 <= (#[trigger] rs[j]).bytes.0 && rs[i].lines.1
            < rs[j].lines.0
}

/// The scan state at line start `i` after `line_no` lines: the regions so
/// far are ordered and end by byte `i`'s offset and line `line_no`, and an
/// open region starts after all of them.
pub open spec fn scan_ok(s: Seq<char>, i: int, line_no: int, regions: Seq<RegionModel>, pending: PendingModel) -> bool {
    &&& 0 <= i <= s.len()
    &&& 0 <= line_no
    &&& regions_ordered(regions)
    &&& forall|k: int|
        0 <= k < regions.len() ==> (#[trigger] regions[k]).bytes.1 <= byte_len(s.take(i)) && regions[k].lines.1
            <= line_no
    &&& pending matches Some((b, l, t)) ==> {
        &&& 0 <= b <= byte_len(s.take(i))
        &&& 1 <= l <= line_no
        &&& forall|k: int| 0 <= k < regions.len() ==> (#[trigger] regions[k]).bytes.1 <= b && regions[k].lines.1 < l
    }
}

proof fn lemma_regions_from_ordered(
    s: Seq<char>,
    mode: SlocMode,
    i: int,
    line_no: int,
    regions: Seq<RegionModel>,
    pending: PendingModel,
)
    requires
        scan_ok(s, i, line_no, regions, pending),
    ensures
        regions_ordered(regions_from(s, mode, i, line_no, regions, pending)),
        forall|k: int|
            0 <= k < regions_from(s, mode, i, line_no, regions, pending).len() ==> (#[trigger] regions_from(
                s,
                mode,
                i,
                line_no,
                regions,
                pending,
            )[k]).bytes.1 <= byte_len(s),
    decreases s.len() - i,
{
    if i >= s.len() {
        assert(s.take(i) =~= s);
        let r = regions_from(s, mode, i, line_no, regions, pending);
        if let Some((b, l, t)) = pending {
            assert forall|x: int, y: int| 0 <= x < y < r.len() implies (#[trigger] r[x]).bytes.1 <= (#[trigger] r[y]).bytes.0
                && r[x].lines.1 < r[y].lines.0 by {
                if y < regions.len() {
                    assert(r[x] == regions[x] && r[y] == regions[y]);
                } else {
                    assert(r[x] == regions[x]);
                }
            }
            assert forall|k: int| 0 <= k < r.len() implies 0 <= (#[trigger] r[k]).bytes.0 <= r[k].bytes.1 && 1
                <= r[k].lines.0 <= r[k].lines.1 by {
                if k < regions.len() {
                    assert(r[k] == regions[k]);
                }
            }
            assert forall|k: int| 0 <= k < r.len() implies (#[trigger] r[k]).bytes.1 <= byte_len(s) by {
                if k < regions.len() {
                    assert(r[k] == regions[k]);
                }
            }
        }
    } else {
        crate::text::lemma_seg_end(s, i);
        let e = seg_end(s, i);
        let ne = no_newline_end(s, i, e);
        let content = s.subrange(i, ne);
        let start = byte_len(s.take(i)) as int;
        crate::text::lemma_byte_len_subrange(s, i, ne);
        crate::text::lemma_byte_len_take_mono(s, ne, e);
        crate::text::lemma_byte_len_take_mono(s, i, e);
        let next = region_step(regions, pending, content, start, line_no + 1, mode);
        let (r2, p2) = next;
        assert(scan_ok(s, e, line_no + 1, r2, p2)) by {
            if r2.len() == regions.len() + 1 {
                let (b, l, t) = pending->0;
                assert(r2 == regions.push(
                    RegionModel { bytes: (b, start + byte_len(content)), lines: (l, line_no + 1), tools: t },
                ));
                assert forall|x: int, y: int| 0 <= x < y < r2.len() implies (#[trigger] r2[x]).bytes.1 <= (
                #[trigger] r2[y]).bytes.0 && r2[x].lines.1 < r2[y].lines.0 by {
                    if y < regions.len() {
                        assert(r2[x] == regions[x] && r2[y] == regions[y]);
                    } else {
                        assert(r2[x] == regions[x]);
                    }
                }
                assert forall|k: int| 0 <= k < r2.len() implies 0 <= (#[trigger] r2[k]).bytes.0 <= r2[k].bytes.1 && 1
                    <= r2[k].lines.0 <= r2[k].lines.1 by {
                    if k < regions.len() {
                        assert(r2[k] == regions[k]);
                    }
                }
                assert forall|k: int| 0 <= k < r2.len() implies (#[trigger] r2[k]).bytes.1 <= byte_len(s.take(e))
                    && r2[k].lines.1 <= line_no + 1 by {
                    if k < regions.len() {
                        assert(r2[k] == regions[k]);
                    }
                }
            } else {
                assert(r2 == regions);
            }
        }
        lemma_regions_from_ordered(s, mode, e, line_no + 1, r2, p2);
    }
}

/// Every ignored region spans a sane byte and line range within the
/// source, and regions come in order without overlapping.
pub proof fn ignored_regions_are_ordered(source: Seq<char>, mode: SlocMode)
    ensures
        regions_ordered(spec_ignored_regions(source, mode)),
        forall|k: int|
            0 <= k < spec_ignored_regions(source, mode).len() ==> (#[trigger] spec_ignored_regions(source, mode)[k]).bytes.1
                <= byte_len(source),
{
    assert(scan_ok(source, 0, 0, Seq::empty(), None));
    lemma_regions_from_ordered(source, mode, 0, 0, Seq::empty(), None);
}

} // verus!
