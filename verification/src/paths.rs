//! Windows paths held as plain strings, read as `std::path` reads them on
//! Windows: a prefix (`C:`, `\\server\share`, `\\.\device`, or one of the
//! verbatim forms `\\?\name`, `\\?\UNC\server\share`, `\\?\C:`), a root
//! separator (implicit after a `\\server\share` or `\\.\device` prefix), and
//! components. Outside verbatim paths both `\` and `/` separate components,
//! and empty and `.` components are ignored except a leading `.` of a path
//! with neither prefix nor root; in verbatim paths only `\` separates, and
//! only empty components are ignored. Paths are equal when their prefixes (a drive
//! letter compared without regard to case), roots and components are.
use vstd::prelude::*;
use crate::text::{chars_eq, chars_of, push_char, string_from_chars};

verus! {

/// `c` separates path components outside verbatim paths.
pub open spec fn is_sep(c: char) -> bool {
    c == '\\' || c == '/'
}

/// `c` separates components: only `\` in a verbatim path (`vb`), else `\`
/// or `/`.
pub open spec fn sep_in(vb: bool, c: char) -> bool {
    if vb {
        c == '\\'
    } else {
        is_sep(c)
    }
}

/// `c` is an ASCII letter.
pub open spec fn is_ascii_alpha(c: char) -> bool {
    ('a' <= c && c <= 'z') || ('A' <= c && c <= 'Z')
}

/// ASCII upper-casing of one character.
pub open spec fn ascii_upper_char(c: char) -> char {
    if 'a' <= c && c <= 'z' {
        ((c as int) - 32) as char
    } else {
        c
    }
}

/// The index of the first separator at or after `i`, or the length of `s`.
pub open spec fn next_sep(s: Seq<char>, i: int, vb: bool) -> int
    decreases s.len() - i,
{
    if i >= s.len() || i < 0 {
        s.len() as int
    } else if sep_in(vb, s[i]) {
        i
    } else {
        next_sep(s, i + 1, vb)
    }
}

/// The kinds of path prefixes.
#[derive(Clone, Copy, Debug, PartialEq, Eq, Structural)]
pub enum PrefixKind {
    /// `C:`
    Disk,
    /// `\\server\share`
    Unc,
    /// `\\.\device`
    DeviceNs,
    /// `\\?\name`
    Verbatim,
    /// `\\?\UNC\server\share`
    VerbatimUnc,
    /// `\\?\C:`
    VerbatimDisk,
}

/// A parsed prefix: its kind, its parts (the upper-cased drive letter, or
/// server and share, or the name) and its length in characters.
pub struct PrefixSpec {
    pub kind: PrefixKind,
    pub first: Seq<char>,
    pub second: Seq<char>,
    pub len: int,
}

/// Characters `i` and `i + 1` of `s` are a letter and `:`.
pub open spec fn drive_at(s: Seq<char>, i: int) -> bool {
    0 <= i && i + 2 <= s.len() && is_ascii_alpha(s[i]) && s[i + 1] == ':'
}

/// The prefix of a path, if it has one.
pub open spec fn parse_prefix(s: Seq<char>) -> Option<PrefixSpec> {
    if s.len() >= 2 && is_sep(s[0]) && is_sep(s[1]) {
        if s.len() >= 4 && s[0] == '\\' && s[1] == '\\' && s[2] == '?' && s[3] == '\\' {
            if s.len() >= 8 && s[4] == 'U' && s[5] == 'N' && s[6] == 'C' && is_sep(s[7]) {
                let e1 = next_sep(s, 8, true);
                if e1 < s.len() {
                    let e2 = next_sep(s, e1 + 1, true);
                    let share = s.subrange(e1 + 1, e2);
                    Some(
                        PrefixSpec {
                            kind: PrefixKind::VerbatimUnc,
                            first: s.subrange(8, e1),
                            second: share,
                            len: if share.len() > 0 {
                                e2
                            } else {
                                e1
                            },
                        },
                    )
                } else {
                    Some(
                        PrefixSpec {
                            kind: PrefixKind::VerbatimUnc,
                            first: s.subrange(8, e1),
                            second: Seq::<char>::empty(),
                            len: e1,
                        },
                    )
                }
            } else if drive_at(s, 4) && (s.len() == 6 || s[6] == '\\') {
                Some(
                    PrefixSpec {
                        kind: PrefixKind::VerbatimDisk,
                        first: seq![ascii_upper_char(s[4])],
                        second: Seq::<char>::empty(),
                        len: 6,
                    },
                )
            } else {
                let e = next_sep(s, 4, true);
                Some(
                    PrefixSpec {
                        kind: PrefixKind::Verbatim,
                        first: s.subrange(4, e),
                        second: Seq::<char>::empty(),
                        len: e,
                    },
                )
            }
        } else if s.len() >= 4 && s[2] == '.' && is_sep(s[3]) {
            let e = next_sep(s, 4, false);
            Some(
                PrefixSpec {
                    kind: PrefixKind::DeviceNs,
                    first: s.subrange(4, e),
                    second: Seq::<char>::empty(),
                    len: e,
                },
            )
        } else {
            let e1 = next_sep(s, 2, false);
            if e1 < s.len() {
                let e2 = next_sep(s, e1 + 1, false);
                if e1 > 2 && e2 > e1 + 1 {
                    Some(
                        PrefixSpec {
                            kind: PrefixKind::Unc,
                            first: s.subrange(2, e1),
                            second: s.subrange(e1 + 1, e2),
                            len: e2,
                        },
                    )
                } else {
                    None
                }
            } else {
                None
            }
        }
    } else if drive_at(s, 0) {
        Some(
            PrefixSpec {
                kind: PrefixKind::Disk,
                first: seq![ascii_upper_char(s[0])],
                second: Seq::<char>::empty(),
                len: 2,
            },
        )
    } else {
        None
    }
}

/// The length of the prefix of a path (0 without one).
pub open spec fn prefix_len(s: Seq<char>) -> int {
    match parse_prefix(s) {
        Some(p) => p.len,
        None => 0,
    }
}

/// The path has a verbatim prefix.
pub open spec fn is_verbatim(s: Seq<char>) -> bool {
    match parse_prefix(s) {
        Some(p) => p.kind is Verbatim || p.kind is VerbatimUnc || p.kind is VerbatimDisk,
        None => false,
    }
}

/// A verbatim share prefix without a share name, such as `\\?\UNC\server\`.
pub open spec fn is_shareless_verbatim_unc(s: Seq<char>) -> bool {
    parse_prefix(s) matches Some(p) && p.kind is VerbatimUnc && p.second.len() == 0
}

/// The kind and parts of the prefix of a path: what path equality compares.
pub open spec fn prefix_key(s: Seq<char>) -> Option<(PrefixKind, Seq<char>, Seq<char>)> {
    match parse_prefix(s) {
        Some(p) => Some((p.kind, p.first, p.second)),
        None => None,
    }
}

/// The path after its prefix.
pub open spec fn path_body(s: Seq<char>) -> Seq<char> {
    s.skip(prefix_len(s))
}

/// A separator follows the prefix.
pub open spec fn has_physical_root(s: Seq<char>) -> bool {
    path_body(s).len() > 0 && is_sep(path_body(s)[0])
}

/// The path has a root: a separator after its prefix, or a
/// `\\server\share` or `\\.\device` prefix, which implies one.
pub open spec fn has_root(s: Seq<char>) -> bool {
    ||| has_physical_root(s)
    ||| (match parse_prefix(s) {
        Some(p) => p.kind is Unc || p.kind is DeviceNs,
        None => false,
    })
}

/// The text the components are read from: after the prefix, and in a
/// verbatim path also after the root separator.
pub open spec fn component_text(s: Seq<char>) -> Seq<char> {
    if is_verbatim(s) && has_physical_root(s) {
        path_body(s).skip(1)
    } else {
        path_body(s)
    }
}

/// `s` cut at every separator; there is always at least one segment.
pub open spec fn split_segments(s: Seq<char>, vb: bool) -> Seq<Seq<char>>
    decreases s.len(),
{
    if s.len() == 0 {
        seq![Seq::<char>::empty()]
    } else {
        let p = split_segments(s.drop_last(), vb);
        if sep_in(vb, s.last()) {
            p.push(Seq::<char>::empty())
        } else {
            p.update(p.len() - 1, p.last().push(s.last()))
        }
    }
}

/// A segment that counts as a component wherever it stands: not empty, and
/// outside verbatim paths not `.`.
pub open spec fn is_kept_segment(g: Seq<char>, vb: bool) -> bool {
    g.len() > 0 && (vb || g != seq!['.'])
}

/// The segments of `segs` that count as components wherever they stand.
pub open spec fn keep_normal(segs: Seq<Seq<char>>, vb: bool) -> Seq<Seq<char>>
    decreases segs.len(),
{
    if segs.len() == 0 {
        Seq::<Seq<char>>::empty()
    } else {
        let p = keep_normal(segs.drop_last(), vb);
        if is_kept_segment(segs.last(), vb) {
            p.push(segs.last())
        } else {
            p
        }
    }
}

/// The first segment counts as a component: when it leads a path without
/// prefix (`lead`), whenever it is not empty, a `.` included; otherwise
/// when it is kept.
pub open spec fn is_kept_first(g: Seq<char>, vb: bool, lead: bool) -> bool {
    if lead {
        g.len() > 0
    } else {
        is_kept_segment(g, vb)
    }
}

/// The components of a sequence of segments: the first segment counts as
/// `is_kept_first` says, later ones when they are kept.
pub open spec fn keep_components(segs: Seq<Seq<char>>, vb: bool, lead: bool) -> Seq<Seq<char>> {
    if segs.len() == 0 {
        Seq::<Seq<char>>::empty()
    } else if is_kept_first(segs[0], vb, lead) {
        seq![segs[0]] + keep_normal(segs.drop_first(), vb)
    } else {
        keep_normal(segs.drop_first(), vb)
    }
}

/// The components of a path, after its prefix and root.
pub open spec fn path_components(s: Seq<char>) -> Seq<Seq<char>> {
    keep_components(
        split_segments(component_text(s), is_verbatim(s)),
        is_verbatim(s),
        parse_prefix(s) is None,
    )
}

/// Two paths name the same path: same prefix, same root, same components.
pub open spec fn same_path_spec(a: Seq<char>, b: Seq<char>) -> bool {
    &&& prefix_key(a) == prefix_key(b)
    &&& has_root(a) == has_root(b)
    &&& path_components(a) == path_components(b)
}

/// The last component, unless the path ends in `.` or `..` or has none.
pub open spec fn file_name_spec(s: Seq<char>) -> Option<Seq<char>> {
    let c = path_components(s);
    if c.len() > 0 && c.last() != seq!['.'] && c.last() != seq!['.', '.'] {
        Some(c.last())
    } else {
        None
    }
}

/// The path without its file name, as a prefix, root and components, when
/// it has a file name.
pub open spec fn parent_key(s: Seq<char>) -> Option<
    (Option<(PrefixKind, Seq<char>, Seq<char>)>, bool, Seq<Seq<char>>),
> {
    if file_name_spec(s) is Some {
        Some((prefix_key(s), has_root(s), path_components(s).drop_last()))
    } else {
        None
    }
}

/// The index of the last `.` in `name`, or -1.
pub open spec fn last_dot(name: Seq<char>) -> int
    decreases name.len(),
{
    if name.len() == 0 {
        -1
    } else if name.last() == '.' {
        name.len() - 1
    } else {
        last_dot(name.drop_last())
    }
}

/// A file name without its extension; a name whose only dot leads keeps it.
pub open spec fn stem_of_name(name: Seq<char>) -> Seq<char> {
    let d = last_dot(name);
    if d <= 0 {
        name
    } else {
        name.take(d)
    }
}

/// What follows the last dot of a file name, if that dot does not lead.
pub open spec fn ext_of_name(name: Seq<char>) -> Option<Seq<char>> {
    let d = last_dot(name);
    if d <= 0 {
        None
    } else {
        Some(name.skip(d + 1))
    }
}

/// The stem of the file name of a path.
pub open spec fn file_stem_spec(s: Seq<char>) -> Option<Seq<char>> {
    match file_name_spec(s) {
        Some(n) => Some(stem_of_name(n)),
        None => None,
    }
}

/// The extension of the file name of a path.
pub open spec fn extension_spec(s: Seq<char>) -> Option<Seq<char>> {
    match file_name_spec(s) {
        Some(n) => ext_of_name(n),
        None => None,
    }
}

/// A file name that joins as a single component: not empty, without
/// separators, not `.` or `..`, and not starting with a drive.
pub open spec fn is_plain_name(name: Seq<char>) -> bool {
    &&& name.len() > 0
    &&& forall|i: int| 0 <= i < name.len() ==> !is_sep(#[trigger] name[i])
    &&& name != seq!['.']
    &&& name != seq!['.', '.']
    &&& !drive_at(name, 0)
}

/// The path is a drive prefix and nothing more, such as `C:`.
pub open spec fn is_bare_drive(s: Seq<char>) -> bool {
    s.len() == 2 && drive_at(s, 0)
}

/// Components joined with `\` between them.
pub open spec fn join_with_sep(l: Seq<Seq<char>>) -> Seq<char>
    decreases l.len(),
{
    if l.len() == 0 {
        Seq::<char>::empty()
    } else if l.len() == 1 {
        l[0]
    } else {
        join_with_sep(l.drop_last()) + seq!['\\'] + l.last()
    }
}

/// `dir` joined with the plain name `name`, as `PathBuf::push` does on
/// Windows: a verbatim `dir` is rebuilt from its prefix and components with
/// `\` between them; otherwise a `\` is put between the two unless `dir` is
/// empty, ends with a separator, or is a bare drive.
pub open spec fn join_spec(dir: Seq<char>, name: Seq<char>) -> Seq<char> {
    if is_verbatim(dir) {
        dir.take(prefix_len(dir)) + seq!['\\'] + join_with_sep(path_components(dir).push(name))
    } else if dir.len() == 0 || is_sep(dir.last()) || is_bare_drive(dir) {
        dir + name
    } else {
        dir + seq!['\\'] + name
    }
}

/// The character sequences held by a vector of character vectors.
pub open spec fn seqs_of(v: Seq<Vec<char>>) -> Seq<Seq<char>> {
    v.map_values(|x: Vec<char>| x@)
}

fn is_sep_exec(c: char) -> (r: bool)
    ensures
        r == is_sep(c),
{
    c == '\\' || c == '/'
}

fn sep_in_exec(vb: bool, c: char) -> (r: bool)
    ensures
        r == sep_in(vb, c),
{
    if vb {
        c == '\\'
    } else {
        is_sep_exec(c)
    }
}

fn is_ascii_alpha_exec(c: char) -> (r: bool)
    ensures
        r == is_ascii_alpha(c),
{
    ('a' <= c && c <= 'z') || ('A' <= c && c <= 'Z')
}

fn drive_at_exec(s: &Vec<char>, i: usize) -> (r: bool)
    ensures
        r == drive_at(s@, i as int),
{
    i < s.len() && s.len() - i >= 2 && is_ascii_alpha_exec(s[i]) && s[i + 1] == ':'
}

fn upper_exec(c: char) -> (r: char)
    ensures
        r == ascii_upper_char(c),
{
    if 'a' <= c && c <= 'z' {
        ((c as u32) - 32) as u8 as char
    } else {
        c
    }
}

proof fn lemma_next_sep(s: Seq<char>, i: int, vb: bool)
    requires
        0 <= i <= s.len(),
    ensures
        i <= next_sep(s, i, vb) <= s.len(),
        forall|k: int| i <= k < next_sep(s, i, vb) ==> !sep_in(vb, #[trigger] s[k]),
        next_sep(s, i, vb) < s.len() ==> sep_in(vb, s[next_sep(s, i, vb)]),
    decreases s.len() - i,
{
    if i < s.len() && !sep_in(vb, s[i]) {
        lemma_next_sep(s, i + 1, vb);
    }
}

/// The index of the first separator at or after `i`, or the length.
fn next_sep_exec(s: &Vec<char>, i: usize, vb: bool) -> (r: usize)
    requires
        i <= s.len(),
    ensures
        r == next_sep(s@, i as int, vb),
        i <= r <= s.len(),
{
    let mut j: usize = i;
    while j < s.len() && !sep_in_exec(vb, s[j])
        invariant
            i <= j <= s.len(),
            next_sep(s@, i as int, vb) == next_sep(s@, j as int, vb),
        decreases s.len() - j,
    {
        j = j + 1;
    }
    j
}

/// The characters `s[a..b]`.
fn copy_range(s: &Vec<char>, a: usize, b: usize) -> (v: Vec<char>)
    requires
        a <= b <= s.len(),
    ensures
        v@ == s@.subrange(a as int, b as int),
{
    let mut v: Vec<char> = Vec::new();
    let mut k: usize = a;
    while k < b
        invariant
            a <= k <= b,
            b <= s.len(),
            v@ =~= s@.subrange(a as int, k as int),
        decreases b - k,
    {
        v.push(s[k]);
        k = k + 1;
    }
    v
}

/// A parsed prefix held in vectors.
struct PrefixParts {
    kind: PrefixKind,
    first: Vec<char>,
    second: Vec<char>,
    len: usize,
}

spec fn parts_match(p: PrefixParts, q: PrefixSpec) -> bool {
    p.kind == q.kind && p.first@ == q.first && p.second@ == q.second && p.len == q.len
}

fn parse_prefix_exec(s: &Vec<char>) -> (r: Option<PrefixParts>)
    ensures
        match r {
            Some(p) => parse_prefix(s@) matches Some(q) && parts_match(p, q) && p.len <= s.len(),
            None => parse_prefix(s@) is None,
        },
{
    let n = s.len();
    if n >= 2 && is_sep_exec(s[0]) && is_sep_exec(s[1]) {
        if n >= 4 && s[0] == '\\' && s[1] == '\\' && s[2] == '?' && s[3] == '\\' {
            if n >= 8 && s[4] == 'U' && s[5] == 'N' && s[6] == 'C' && is_sep_exec(s[7]) {
                let e1 = next_sep_exec(s, 8, true);
                let server = copy_range(s, 8, e1);
                if e1 < n {
                    let e2 = next_sep_exec(s, e1 + 1, true);
                    let share = copy_range(s, e1 + 1, e2);
                    let len = if share.len() > 0 {
                        e2
                    } else {
                        e1
                    };
                    Some(PrefixParts { kind: PrefixKind::VerbatimUnc, first: server, second: share, len })
                } else {
                    Some(
                        PrefixParts {
                            kind: PrefixKind::VerbatimUnc,
                            first: server,
                            second: Vec::new(),
                            len: e1,
                        },
                    )
                }
            } else if drive_at_exec(s, 4) && (n == 6 || s[6] == '\\') {
                let mut first: Vec<char> = Vec::new();
                first.push(upper_exec(s[4]));
                assert(first@ =~= seq![ascii_upper_char(s@[4])]);
                Some(PrefixParts { kind: PrefixKind::VerbatimDisk, first, second: Vec::new(), len: 6 })
            } else {
                let e = next_sep_exec(s, 4, true);
                let name = copy_range(s, 4, e);
                Some(PrefixParts { kind: PrefixKind::Verbatim, first: name, second: Vec::new(), len: e })
            }
        } else if n >= 4 && s[2] == '.' && is_sep_exec(s[3]) {
            let e = next_sep_exec(s, 4, false);
            let name = copy_range(s, 4, e);
            Some(PrefixParts { kind: PrefixKind::DeviceNs, first: name, second: Vec::new(), len: e })
        } else {
            let e1 = next_sep_exec(s, 2, false);
            if e1 < n {
                let e2 = next_sep_exec(s, e1 + 1, false);
                if e1 > 2 && e2 > e1 + 1 {
                    let server = copy_range(s, 2, e1);
                    let share = copy_range(s, e1 + 1, e2);
                    Some(PrefixParts { kind: PrefixKind::Unc, first: server, second: share, len: e2 })
                } else {
                    None
                }
            } else {
                None
            }
        }
    } else if drive_at_exec(s, 0) {
        let mut first: Vec<char> = Vec::new();
        first.push(upper_exec(s[0]));
        assert(first@ =~= seq![ascii_upper_char(s@[0])]);
        Some(PrefixParts { kind: PrefixKind::Disk, first, second: Vec::new(), len: 2 })
    } else {
        None
    }
}

proof fn lemma_split_nonempty(s: Seq<char>, vb: bool)
    ensures
        split_segments(s, vb).len() >= 1,
    decreases s.len(),
{
    if s.len() > 0 {
        lemma_split_nonempty(s.drop_last(), vb);
    }
}

proof fn lemma_keep_components_push(segs: Seq<Seq<char>>, g: Seq<char>, vb: bool, lead: bool)
    requires
        segs.len() >= 1,
    ensures
        keep_components(segs.push(g), vb, lead) == if is_kept_segment(g, vb) {
            keep_components(segs, vb, lead).push(g)
        } else {
            keep_components(segs, vb, lead)
        },
{
    let t = segs.push(g);
    assert(t[0] == segs[0]);
    assert(t.drop_first() =~= segs.drop_first().push(g));
    assert(segs.drop_first().push(g).drop_last() =~= segs.drop_first());
    if is_kept_first(segs[0], vb, lead) {
        assert(seq![segs[0]] + keep_normal(segs.drop_first(), vb).push(g) =~= (seq![segs[0]]
            + keep_normal(segs.drop_first(), vb)).push(g));
    }
}

proof fn lemma_keep_components_single(g: Seq<char>, vb: bool, lead: bool)
    ensures
        keep_components(seq![g], vb, lead) == if is_kept_first(g, vb, lead) {
            seq![g]
        } else {
            Seq::<Seq<char>>::empty()
        },
{
    assert(seq![g].drop_first() =~= Seq::<Seq<char>>::empty());
    if is_kept_first(g, vb, lead) {
        assert(seq![g] + Seq::<Seq<char>>::empty() =~= seq![g]);
    }
}

fn keep_first(g: &Vec<char>, vb: bool, lead: bool) -> (r: bool)
    ensures
        r == is_kept_first(g@, vb, lead),
{
    if lead {
        g.len() > 0
    } else {
        let dot = g.len() == 1 && g[0] == '.';
        proof {
            if g@ == seq!['.'] {
                assert(g@.len() == 1 && g@[0] == '.');
            }
            if dot {
                assert(g@ =~= seq!['.']);
            }
        }
        g.len() > 0 && (vb || !dot)
    }
}

fn components_from(s: &Vec<char>, start: usize, vb: bool, lead: bool) -> (comps: Vec<Vec<char>>)
    requires
        start <= s.len(),
    ensures
        seqs_of(comps@) == keep_components(split_segments(s@.skip(start as int), vb), vb, lead),
{
    let mut comps: Vec<Vec<char>> = Vec::new();
    let mut cur: Vec<char> = Vec::new();
    let mut i: usize = start;
    let mut seen_sep = false;
    let ghost body = s@.skip(start as int);
    proof {
        assert(body.take(0) =~= Seq::<char>::empty());
        assert(split_segments(Seq::<char>::empty(), vb) == seq![Seq::<char>::empty()]);
        assert(seq![Seq::<char>::empty()].drop_last() =~= Seq::<Seq<char>>::empty());
        assert(seqs_of(comps@) =~= Seq::<Seq<char>>::empty());
    }
    while i < s.len()
        invariant
            start <= i <= s.len(),
            body == s@.skip(start as int),
            split_segments(body.take(i - start), vb).len() >= 1,
            seen_sep == (split_segments(body.take(i - start), vb).len() > 1),
            cur@ == split_segments(body.take(i - start), vb).last(),
            seqs_of(comps@) == keep_components(
                split_segments(body.take(i - start), vb).drop_last(),
                vb,
                lead,
            ),
        decreases s.len() - i,
    {
        let c = s[i];
        let ghost pre = body.take(i - start);
        let ghost post = body.take(i + 1 - start);
        proof {
            assert(post.drop_last() =~= pre);
            assert(post.last() == c);
            lemma_split_nonempty(pre, vb);
        }
        let ghost segs = split_segments(pre, vb);
        if sep_in_exec(vb, c) {
            proof {
                assert(split_segments(post, vb) == segs.push(Seq::<char>::empty()));
                assert(segs.push(Seq::<char>::empty()).drop_last() =~= segs);
                assert(segs =~= segs.drop_last().push(segs.last()));
            }
            if !seen_sep {
                proof {
                    lemma_keep_components_single(cur@, vb, lead);
                    assert(segs =~= seq![cur@]);
                    assert(segs.drop_last() =~= Seq::<Seq<char>>::empty());
                }
                if keep_first(&cur, vb, lead) {
                    comps.push(cur);
                    proof {
                        assert(seqs_of(comps@) =~= seq![segs[0]]);
                    }
                } else {
                    assert(seqs_of(comps@) =~= keep_components(segs, vb, lead));
                }
            } else {
                proof {
                    lemma_keep_components_push(segs.drop_last(), segs.last(), vb, lead);
                }
                let keep = cur.len() > 0 && (vb || !(cur.len() == 1 && cur[0] == '.'));
                proof {
                    if cur@ == seq!['.'] {
                        assert(cur@.len() == 1 && cur@[0] == '.');
                    }
                    if cur@.len() == 1 && cur@[0] == '.' {
                        assert(cur@ =~= seq!['.']);
                    }
                    assert(keep == is_kept_segment(segs.last(), vb));
                }
                if keep {
                    let ghost before = comps@;
                    comps.push(cur);
                    assert(seqs_of(comps@) =~= seqs_of(before).push(segs.last()));
                }
            }
            cur = Vec::new();
            seen_sep = true;
        } else {
            proof {
                assert(split_segments(post, vb) == segs.update(segs.len() - 1, segs.last().push(c)));
                assert(segs.update(segs.len() - 1, segs.last().push(c)).drop_last()
                    =~= segs.drop_last());
            }
            cur.push(c);
        }
        i = i + 1;
    }
    proof {
        assert(body.take(s.len() - start) =~= body);
        let segs = split_segments(body, vb);
        assert(segs =~= segs.drop_last().push(segs.last()));
    }
    let ghost segs = split_segments(body, vb);
    if !seen_sep {
        proof {
            lemma_keep_components_single(cur@, vb, lead);
            assert(segs =~= seq![cur@]);
        }
        if keep_first(&cur, vb, lead) {
            comps.push(cur);
            assert(seqs_of(comps@) =~= seq![segs[0]]);
        } else {
            assert(seqs_of(comps@) =~= Seq::<Seq<char>>::empty());
        }
    } else {
        proof {
            lemma_keep_components_push(segs.drop_last(), segs.last(), vb, lead);
        }
        let keep = cur.len() > 0 && (vb || !(cur.len() == 1 && cur[0] == '.'));
        proof {
            if cur@ == seq!['.'] {
                assert(cur@.len() == 1 && cur@[0] == '.');
            }
            if cur@.len() == 1 && cur@[0] == '.' {
                assert(cur@ =~= seq!['.']);
            }
            assert(keep == is_kept_segment(segs.last(), vb));
        }
        if keep {
            let ghost before = comps@;
            comps.push(cur);
            assert(seqs_of(comps@) =~= seqs_of(before).push(segs.last()));
        }
    }
    comps
}

fn comps_eq(a: &Vec<Vec<char>>, b: &Vec<Vec<char>>) -> (r: bool)
    ensures
        r == (seqs_of(a@) == seqs_of(b@)),
{
    if a.len() != b.len() {
        assert(seqs_of(a@).len() != seqs_of(b@).len());
        return false;
    }
    let mut i: usize = 0;
    while i < a.len()
        invariant
            a.len() == b.len(),
            i <= a.len(),
            forall|j: int| 0 <= j < i ==> a@[j]@ == b@[j]@,
        decreases a.len() - i,
    {
        if !chars_eq(&a[i], &b[i]) {
            assert(seqs_of(a@)[i as int] != seqs_of(b@)[i as int]);
            return false;
        }
        i = i + 1;
    }
    assert(seqs_of(a@) =~= seqs_of(b@));
    true
}

/// The prefix, root flag and components of a path.
struct PathParts {
    prefix: Option<PrefixParts>,
    root: bool,
    comps: Vec<Vec<char>>,
}

spec fn prefix_parts_key(p: Option<PrefixParts>) -> Option<(PrefixKind, Seq<char>, Seq<char>)> {
    match p {
        Some(q) => Some((q.kind, q.first@, q.second@)),
        None => None,
    }
}

fn is_verbatim_kind(k: PrefixKind) -> (r: bool)
    ensures
        r == (k is Verbatim || k is VerbatimUnc || k is VerbatimDisk),
{
    match k {
        PrefixKind::Verbatim | PrefixKind::VerbatimUnc | PrefixKind::VerbatimDisk => true,
        _ => false,
    }
}

fn parts_of(s: &Vec<char>) -> (p: PathParts)
    ensures
        prefix_parts_key(p.prefix) == prefix_key(s@),
        p.prefix matches Some(q) ==> q.len == prefix_len(s@) && q.len <= s.len(),
        p.root == has_root(s@),
        seqs_of(p.comps@) == path_components(s@),
{
    let prefix = parse_prefix_exec(s);
    let (start, vb, implicit_root) = match &prefix {
        Some(q) => (
            q.len,
            is_verbatim_kind(q.kind),
            match q.kind {
                PrefixKind::Unc | PrefixKind::DeviceNs => true,
                _ => false,
            },
        ),
        None => (0, false, false),
    };
    proof {
        assert(path_body(s@) =~= s@.skip(start as int));
        assert(vb == is_verbatim(s@));
    }
    let physical = start < s.len() && is_sep_exec(s[start]);
    let text_start = if vb && physical {
        start + 1
    } else {
        start
    };
    proof {
        assert(component_text(s@) =~= s@.skip(text_start as int));
    }
    let comps = components_from(s, text_start, vb, prefix.is_none());
    PathParts { prefix, root: physical || implicit_root, comps }
}

fn prefix_parts_eq(a: &Option<PrefixParts>, b: &Option<PrefixParts>) -> (r: bool)
    ensures
        r == (prefix_parts_key(*a) == prefix_parts_key(*b)),
{
    match (a, b) {
        (Some(x), Some(y)) => x.kind == y.kind && chars_eq(&x.first, &y.first) && chars_eq(
            &x.second,
            &y.second,
        ),
        (None, None) => true,
        _ => false,
    }
}

/// Whether two paths name the same path (same prefix, root and components).
pub fn same_path(a: &str, b: &str) -> (r: bool)
    ensures
        r == same_path_spec(a@, b@),
{
    let av = chars_of(a);
    let bv = chars_of(b);
    let pa = parts_of(&av);
    let pb = parts_of(&bv);
    prefix_parts_eq(&pa.prefix, &pb.prefix) && pa.root == pb.root && comps_eq(&pa.comps, &pb.comps)
}

/// The file name of a path, as characters.
fn file_name_chars(s: &Vec<char>) -> (r: Option<Vec<char>>)
    ensures
        match r {
            Some(v) => file_name_spec(s@) == Some(v@),
            None => file_name_spec(s@) is None,
        },
{
    let mut p = parts_of(s);
    let n = p.comps.len();
    if n == 0 {
        return None;
    }
    let last = p.comps.pop().unwrap();
    proof {
        assert(seqs_of(p.comps@.push(last)) =~= seqs_of(p.comps@).push(last@));
    }
    let dot = last.len() == 1 && last[0] == '.';
    let dotdot = last.len() == 2 && last[0] == '.' && last[1] == '.';
    proof {
        if last@ == seq!['.'] {
            assert(last@[0] == '.');
        }
        if dot {
            assert(last@ =~= seq!['.']);
        }
        if last@ == seq!['.', '.'] {
            assert(last@[0] == '.' && last@[1] == '.');
        }
        if dotdot {
            assert(last@ =~= seq!['.', '.']);
        }
    }
    if dot || dotdot {
        None
    } else {
        Some(last)
    }
}

fn last_dot_exec(name: &Vec<char>) -> (d: Option<usize>)
    ensures
        match d {
            Some(i) => last_dot(name@) == i as int && i < name.len(),
            None => last_dot(name@) == -1,
        },
{
    let mut i: usize = name.len();
    assert(name@.take(name.len() as int) =~= name@);
    while i > 0
        invariant
            i <= name.len(),
            forall|j: int| i <= j < name.len() ==> name@[j] != '.',
            last_dot(name@) == last_dot(name@.take(i as int)),
        decreases i,
    {
        let ghost pre = name@.take(i as int);
        assert(pre.drop_last() =~= name@.take(i - 1));
        if name[i - 1] == '.' {
            return Some(i - 1);
        }
        i = i - 1;
    }
    assert(name@.take(0) =~= Seq::<char>::empty());
    None
}

/// The file stem of a path: its file name without the extension.
pub fn file_stem(path: &str) -> (r: Option<String>)
    ensures
        match r {
            Some(t) => file_stem_spec(path@) == Some(t@),
            None => file_stem_spec(path@) is None,
        },
{
    let s = chars_of(path);
    match file_name_chars(&s) {
        None => None,
        Some(name) => {
            match last_dot_exec(&name) {
                Some(d) if d > 0 => {
                    let mut stem: Vec<char> = Vec::new();
                    let mut k: usize = 0;
                    while k < d
                        invariant
                            k <= d,
                            d <= name.len(),
                            stem@ =~= name@.take(k as int),
                        decreases d - k,
                    {
                        stem.push(name[k]);
                        k = k + 1;
                    }
                    Some(string_from_chars(&stem))
                },
                _ => Some(string_from_chars(&name)),
            }
        },
    }
}

/// The extension of a path: what follows the last dot of its file name.
pub fn extension(path: &str) -> (r: Option<String>)
    ensures
        match r {
            Some(t) => extension_spec(path@) == Some(t@),
            None => extension_spec(path@) is None,
        },
{
    let s = chars_of(path);
    match file_name_chars(&s) {
        None => None,
        Some(name) => {
            match last_dot_exec(&name) {
                Some(d) if d > 0 => {
                    let mut ext: Vec<char> = Vec::new();
                    let mut k: usize = d + 1;
                    while k < name.len()
                        invariant
                            d + 1 <= k <= name.len(),
                            ext@ =~= name@.subrange(d + 1, k as int),
                        decreases name.len() - k,
                    {
                        ext.push(name[k]);
                        k = k + 1;
                    }
                    assert(ext@ =~= name@.skip(d + 1));
                    Some(string_from_chars(&ext))
                },
                _ => None,
            }
        },
    }
}



/// Appends the characters of `v` to `out`.
fn append_chars(out: &mut String, v: &Vec<char>)
    ensures
        final(out)@ == old(out)@ + v@,
{
    let ghost base = out@;
    let mut i: usize = 0;
    while i < v.len()
        invariant
            i <= v.len(),
            out@ == base + v@.take(i as int),
        decreases v.len() - i,
    {
        push_char(out, v[i]);
        assert(base + v@.take(i + 1) =~= (base + v@.take(i as int)).push(v@[i as int]));
        i = i + 1;
    }
    assert(v@.take(v.len() as int) =~= v@);
}

proof fn lemma_join_take(l: Seq<Seq<char>>, i: int)
    requires
        0 <= i < l.len(),
    ensures
        join_with_sep(l.take(i + 1)) == if i == 0 {
            l[0]
        } else {
            join_with_sep(l.take(i)) + seq!['\\'] + l[i]
        },
{
    assert(l.take(i + 1).drop_last() =~= l.take(i));
    assert(l.take(i + 1).last() == l[i]);
    if i == 0 {
        assert(l.take(1)[0] == l[0]);
    }
}

/// Joins the plain file name `name` to the directory `dir`.
pub fn join(dir: &str, name: &str) -> (r: String)
    requires
        is_plain_name(name@),
    ensures
        r@ == join_spec(dir@, name@),
{
    let d = chars_of(dir);
    let n = chars_of(name);
    let parts = parts_of(&d);
    let verbatim = match &parts.prefix {
        Some(q) => is_verbatim_kind(q.kind),
        None => false,
    };
    proof {
        assert(verbatim == is_verbatim(d@));
    }
    if verbatim {
        let plen = match &parts.prefix {
            Some(q) => q.len,
            None => 0,
        };
        let head = copy_range(&d, 0, plen);
        let mut out = string_from_chars(&head);
        push_char(&mut out, '\\');
        let ghost base = out@;
        let ghost l = seqs_of(parts.comps@).push(n@);
        let mut i: usize = 0;
        while i < parts.comps.len()
            invariant
                i <= parts.comps.len(),
                l == seqs_of(parts.comps@).push(n@),
                out@ == base + join_with_sep(l.take(i as int)),
            decreases parts.comps.len() - i,
        {
            proof {
                lemma_join_take(l, i as int);
                assert(l[i as int] == parts.comps@[i as int]@);
            }
            if i > 0 {
                push_char(&mut out, '\\');
            }
            append_chars(&mut out, &parts.comps[i]);
            proof {
                if i > 0 {
                    assert(base + join_with_sep(l.take(i + 1)) =~= base + join_with_sep(
                        l.take(i as int),
                    ) + seq!['\\'] + l[i as int]);
                } else {
                    assert(l.take(0) =~= Seq::<Seq<char>>::empty());
                    assert(base + join_with_sep(l.take(1)) =~= base + join_with_sep(
                        l.take(0),
                    ) + l[0]);
                }
            }
            i = i + 1;
        }
        let k = parts.comps.len();
        proof {
            lemma_join_take(l, k as int);
            assert(l.take(k + 1) =~= l);
            assert(l[k as int] == n@);
            if k == 0 {
                assert(l.take(0) =~= Seq::<Seq<char>>::empty());
            }
        }
        if k > 0 {
            push_char(&mut out, '\\');
        }
        append_chars(&mut out, &n);
        proof {
            if k > 0 {
                assert(out@ =~= base + join_with_sep(l));
            } else {
                assert(out@ =~= base + join_with_sep(l));
            }
            assert(base =~= d@.take(prefix_len(d@)) + seq!['\\']);
            assert(out@ =~= d@.take(prefix_len(d@)) + seq!['\\'] + join_with_sep(l));
        }
        return out;
    }
    let mut out = string_from_chars(&d);
    let bare = d.len() == 2 && drive_at_exec(&d, 0);
    if !(d.len() == 0 || is_sep_exec(d[d.len() - 1]) || bare) {
        push_char(&mut out, '\\');
    }
    let ghost base = out@;
    append_chars(&mut out, &n);
    proof {
        if !(d@.len() == 0 || is_sep(d@.last()) || is_bare_drive(d@)) {
            assert(base =~= d@ + seq!['\\']);
        }
    }
    out
}


proof fn lemma_prefix_len_bound(s: Seq<char>)
    ensures
        0 <= prefix_len(s) <= s.len(),
{
    if s.len() >= 2 && is_sep(s[0]) && is_sep(s[1]) {
        if s.len() >= 4 && s[0] == '\\' && s[1] == '\\' && s[2] == '?' && s[3] == '\\' {
            if s.len() >= 8 && s[4] == 'U' && s[5] == 'N' && s[6] == 'C' && is_sep(s[7]) {
                lemma_next_sep(s, 8, true);
                let e1 = next_sep(s, 8, true);
                if e1 < s.len() {
                    lemma_next_sep(s, e1 + 1, true);
                }
            } else if drive_at(s, 4) && (s.len() == 6 || s[6] == '\\') {
            } else {
                lemma_next_sep(s, 4, true);
            }
        } else if s.len() >= 4 && s[2] == '.' && is_sep(s[3]) {
            lemma_next_sep(s, 4, false);
        } else {
            lemma_next_sep(s, 2, false);
            let e1 = next_sep(s, 2, false);
            if e1 < s.len() {
                lemma_next_sep(s, e1 + 1, false);
            }
        }
    }
}

proof fn lemma_split_append(p: Seq<char>, q: Seq<char>, vb: bool)
    requires
        forall|i: int| 0 <= i < q.len() ==> !sep_in(vb, #[trigger] q[i]),
    ensures
        split_segments(p + q, vb) == split_segments(p, vb).update(
            split_segments(p, vb).len() - 1,
            split_segments(p, vb).last() + q,
        ),
    decreases q.len(),
{
    lemma_split_nonempty(p, vb);
    let sp = split_segments(p, vb);
    if q.len() == 0 {
        assert(p + q =~= p);
        assert(sp.last() + q =~= sp.last());
        assert(sp.update(sp.len() - 1, sp.last()) =~= sp);
    } else {
        let q1 = q.drop_last();
        let c = q.last();
        assert forall|i: int| 0 <= i < q1.len() implies !sep_in(vb, #[trigger] q1[i]) by {
            assert(q1[i] == q[i]);
        }
        lemma_split_append(p, q1, vb);
        assert((p + q).drop_last() =~= p + q1);
        assert((p + q).last() == c);
        let s1 = split_segments(p + q1, vb);
        assert(s1 == sp.update(sp.len() - 1, sp.last() + q1));
        assert((sp.last() + q1).push(c) =~= sp.last() + q);
        assert(s1.update(s1.len() - 1, s1.last().push(c)) =~= sp.update(
            sp.len() - 1,
            sp.last() + q,
        ));
    }
}

/// No segment of `l` holds a separator of the given kind.
pub open spec fn no_sep_segments(l: Seq<Seq<char>>, vb: bool) -> bool {
    forall|k: int, i: int| 0 <= k < l.len() && 0 <= i < l[k].len() ==> !sep_in(vb, #[trigger] l[k][i])
}

/// Every segment of `l` is nonempty.
pub open spec fn all_nonempty(l: Seq<Seq<char>>) -> bool {
    forall|k: int| 0 <= k < l.len() ==> (#[trigger] l[k]).len() > 0
}

proof fn lemma_split_no_sep(s: Seq<char>, vb: bool)
    ensures
        no_sep_segments(split_segments(s, vb), vb),
    decreases s.len(),
{
    if s.len() > 0 {
        lemma_split_no_sep(s.drop_last(), vb);
        lemma_split_nonempty(s.drop_last(), vb);
        let p = split_segments(s.drop_last(), vb);
        let r = split_segments(s, vb);
        assert forall|k: int, i: int| 0 <= k < r.len() && 0 <= i < r[k].len() implies !sep_in(
            vb,
            #[trigger] r[k][i],
        ) by {
            if sep_in(vb, s.last()) {
                if k < p.len() {
                    assert(r[k] == p[k]);
                }
            } else {
                if k < p.len() - 1 {
                    assert(r[k] == p[k]);
                } else {
                    assert(r[k] == p.last().push(s.last()));
                    if i < p.last().len() {
                        assert(r[k][i] == p[k][i]);
                    }
                }
            }
        }
    }
}

proof fn lemma_keep_normal_props(segs: Seq<Seq<char>>, vb: bool)
    requires
        no_sep_segments(segs, vb),
    ensures
        no_sep_segments(keep_normal(segs, vb), vb),
        all_nonempty(keep_normal(segs, vb)),
    decreases segs.len(),
{
    if segs.len() > 0 {
        let d = segs.drop_last();
        assert forall|k: int, i: int| 0 <= k < d.len() && 0 <= i < d[k].len() implies !sep_in(
            vb,
            #[trigger] d[k][i],
        ) by {
            assert(d[k] == segs[k]);
        }
        lemma_keep_normal_props(d, vb);
        let p = keep_normal(d, vb);
        let r = keep_normal(segs, vb);
        assert forall|k: int, i: int| 0 <= k < r.len() && 0 <= i < r[k].len() implies !sep_in(
            vb,
            #[trigger] r[k][i],
        ) by {
            if k < p.len() {
                assert(r[k] == p[k]);
            } else {
                assert(r[k] == segs[segs.len() - 1]);
            }
        }
        assert forall|k: int| 0 <= k < r.len() implies (#[trigger] r[k]).len() > 0 by {
            if k < p.len() {
                assert(r[k] == p[k]);
            }
        }
    }
}

proof fn lemma_keep_components_props(segs: Seq<Seq<char>>, vb: bool, lead: bool)
    requires
        no_sep_segments(segs, vb),
    ensures
        no_sep_segments(keep_components(segs, vb, lead), vb),
        all_nonempty(keep_components(segs, vb, lead)),
{
    if segs.len() > 0 {
        let d = segs.drop_first();
        assert forall|k: int, i: int| 0 <= k < d.len() && 0 <= i < d[k].len() implies !sep_in(
            vb,
            #[trigger] d[k][i],
        ) by {
            assert(d[k] == segs[k + 1]);
        }
        lemma_keep_normal_props(d, vb);
        let p = keep_normal(d, vb);
        if is_kept_first(segs[0], vb, lead) {
            let r = seq![segs[0]] + p;
            assert forall|k: int, i: int| 0 <= k < r.len() && 0 <= i < r[k].len() implies !sep_in(
                vb,
                #[trigger] r[k][i],
            ) by {
                if k > 0 {
                    assert(r[k] == p[k - 1]);
                } else {
                    assert(r[k] == segs[0]);
                }
            }
            assert forall|k: int| 0 <= k < r.len() implies (#[trigger] r[k]).len() > 0 by {
                if k > 0 {
                    assert(r[k] == p[k - 1]);
                }
            }
        }
    }
}

proof fn lemma_split_join(l: Seq<Seq<char>>)
    requires
        l.len() >= 1,
        no_sep_segments(l, true),
    ensures
        split_segments(join_with_sep(l), true) == l,
    decreases l.len(),
{
    if l.len() == 1 {
        assert forall|i: int| 0 <= i < l[0].len() implies !sep_in(true, #[trigger] l[0][i]) by {
            assert(l[0][i] == l[0][i]);
        }
        lemma_split_append(Seq::<char>::empty(), l[0], true);
        assert(Seq::<char>::empty() + l[0] =~= l[0]);
        assert(seq![Seq::<char>::empty()].update(0, Seq::<char>::empty() + l[0]) =~= l);
    } else {
        let d = l.drop_last();
        assert forall|k: int, i: int| 0 <= k < d.len() && 0 <= i < d[k].len() implies !sep_in(
            true,
            #[trigger] d[k][i],
        ) by {
            assert(d[k] == l[k]);
        }
        lemma_split_join(d);
        let a = join_with_sep(d) + seq!['\\'];
        let last = l.last();
        assert forall|i: int| 0 <= i < last.len() implies !sep_in(true, #[trigger] last[i]) by {
            assert(l[l.len() - 1][i] == last[i]);
        }
        lemma_split_append(a, last, true);
        assert(a.drop_last() =~= join_with_sep(d));
        assert(split_segments(a, true) == d.push(Seq::<char>::empty()));
        assert(Seq::<char>::empty() + last =~= last);
        assert(join_with_sep(l) =~= a + last);
        assert(d.push(Seq::<char>::empty()).update(d.len() as int, last) =~= l);
    }
}

proof fn lemma_keep_all(l: Seq<Seq<char>>)
    requires
        all_nonempty(l),
    ensures
        keep_normal(l, true) == l,
    decreases l.len(),
{
    if l.len() > 0 {
        let d = l.drop_last();
        assert forall|k: int| 0 <= k < d.len() implies (#[trigger] d[k]).len() > 0 by {
            assert(d[k] == l[k]);
        }
        lemma_keep_all(d);
        assert(l[l.len() - 1].len() > 0);
        assert(d.push(l.last()) =~= l);
    }
}

/// The text after the prefix that the joined name follows, outside
/// verbatim paths: `dir` with the separator that joining puts after it.
pub open spec fn join_base(dir: Seq<char>) -> Seq<char> {
    if dir.len() == 0 || is_sep(dir.last()) || is_bare_drive(dir) {
        dir
    } else {
        dir + seq!['\\']
    }
}

/// The components that a name joined to `dir` follows.
pub open spec fn joined_base_components(dir: Seq<char>) -> Seq<Seq<char>> {
    if is_verbatim(dir) {
        path_components(dir)
    } else {
        let b = join_base(dir).skip(prefix_len(dir));
        if b.len() == 0 {
            Seq::<Seq<char>>::empty()
        } else {
            keep_components(split_segments(b, false).drop_last(), false, parse_prefix(dir) is None)
        }
    }
}

/// Whether a name joined to `dir` stands under a root.
pub open spec fn joined_root(dir: Seq<char>) -> bool {
    if is_verbatim(dir) {
        true
    } else {
        let b = join_base(dir).skip(prefix_len(dir));
        ||| (b.len() > 0 && is_sep(b[0]))
        ||| (match parse_prefix(dir) {
            Some(p) => p.kind is Unc || p.kind is DeviceNs,
            None => false,
        })
    }
}

proof fn lemma_join_parts(dir: Seq<char>, name: Seq<char>)
    requires
        is_plain_name(name),
        parse_prefix(join_spec(dir, name)) == parse_prefix(dir),
    ensures
        path_components(join_spec(dir, name)) == joined_base_components(dir).push(name),
        has_root(join_spec(dir, name)) == joined_root(dir),
        prefix_key(join_spec(dir, name)) == prefix_key(dir),
{
    let j = join_spec(dir, name);
    let l = prefix_len(dir);
    lemma_prefix_len_bound(dir);
    assert(prefix_len(j) == l);
    assert(is_verbatim(j) == is_verbatim(dir));
    if is_verbatim(dir) {
        let c = path_components(dir);
        let jn = join_with_sep(c.push(name));
        assert(j =~= dir.take(l) + seq!['\\'] + jn);
        assert(path_body(j) =~= seq!['\\'] + jn);
        assert(has_physical_root(j));
        assert(component_text(j) =~= jn);
        lemma_split_no_sep(component_text(dir), true);
        lemma_keep_components_props(split_segments(component_text(dir), true), true, false);
        let cn = c.push(name);
        assert forall|k: int, i: int| 0 <= k < cn.len() && 0 <= i < cn[k].len() implies !sep_in(
            true,
            #[trigger] cn[k][i],
        ) by {
            if k < c.len() {
                assert(cn[k] == c[k]);
            } else {
                assert(cn[k] == name);
                assert(!is_sep(name[i]));
            }
        }
        assert forall|k: int| 0 <= k < cn.len() implies (#[trigger] cn[k]).len() > 0 by {
            if k < c.len() {
                assert(cn[k] == c[k]);
            }
        }
        lemma_split_join(cn);
        lemma_keep_all(cn.drop_first());
        assert forall|k: int| 0 <= k < cn.drop_first().len() implies (#[trigger] cn.drop_first()[k]).len() > 0 by {
            assert(cn.drop_first()[k] == cn[k + 1]);
        }
        lemma_keep_all(cn.drop_first());
        assert(cn[0].len() > 0);
        assert(seq![cn[0]] + cn.drop_first() =~= cn);
    } else {
        let x = join_base(dir);
        assert(j =~= x + name);
        let b = x.skip(l);
        assert(path_body(j) =~= b + name);
        assert forall|i: int| 0 <= i < name.len() implies !sep_in(false, #[trigger] name[i]) by {
            assert(!is_sep(name[i]));
        }
        lemma_split_append(b, name, false);
        lemma_split_nonempty(b, false);
        let sb = split_segments(b, false);
        if b.len() == 0 {
            assert(sb =~= seq![Seq::<char>::empty()]);
            assert(Seq::<char>::empty() + name =~= name);
            assert(split_segments(b + name, false) =~= seq![name]);
            lemma_keep_components_single(name, false, parse_prefix(dir) is None);
            assert(Seq::<Seq<char>>::empty().push(name) =~= seq![name]);
            assert(path_body(j) =~= name);
            assert(!is_sep(name[0]));
        } else {
            assert(x.len() > 0);
            assert(b.last() == x.last());
            if x == dir {
                assert(!is_bare_drive(dir) || l == 2);
            }
            assert(is_sep(b.last()));
            assert(sb == split_segments(b.drop_last(), false).push(Seq::<char>::empty()));
            lemma_split_nonempty(b.drop_last(), false);
            assert(sb.last() + name =~= name);
            let segs = split_segments(b + name, false);
            assert(segs =~= sb.drop_last().push(name));
            lemma_keep_components_push(sb.drop_last(), name, false, parse_prefix(dir) is None);
            assert(path_body(j)[0] == b[0]);
        }
    }
}

proof fn lemma_next_sep_take(s: Seq<char>, k: int, i: int, vb: bool)
    requires
        0 <= k <= s.len(),
        0 <= i,
    ensures
        next_sep(s.take(k), i, vb) == if next_sep(s, i, vb) < k {
            next_sep(s, i, vb)
        } else {
            k
        },
    decreases s.len() - i,
{
    if i >= k {
        if i <= s.len() {
            lemma_next_sep(s, i, vb);
        }
    } else {
        assert(s.take(k)[i] == s[i]);
        if !sep_in(vb, s[i]) {
            lemma_next_sep_take(s, k, i + 1, vb);
        }
    }
}

/// Cutting a path anywhere after its prefix leaves the prefix as it is.
proof fn lemma_prefix_take(s: Seq<char>, k: int)
    requires
        prefix_len(s) <= k <= s.len(),
    ensures
        parse_prefix(s.take(k)) == parse_prefix(s),
{
    lemma_prefix_len_bound(s);
    let u = s.take(k);
    assert forall|i: int| 0 <= i < k implies #[trigger] u[i] == s[i] by {}
    if s.len() >= 2 && is_sep(s[0]) && is_sep(s[1]) {
        if s.len() >= 4 && s[0] == '\\' && s[1] == '\\' && s[2] == '?' && s[3] == '\\' {
            if s.len() >= 8 && s[4] == 'U' && s[5] == 'N' && s[6] == 'C' && is_sep(s[7]) {
                lemma_next_sep(s, 8, true);
                lemma_next_sep_take(s, k, 8, true);
                let e1 = next_sep(s, 8, true);
                if e1 < s.len() {
                    lemma_next_sep(s, e1 + 1, true);
                }
                assert(k >= 8);
                assert(u[4] == 'U' && u[5] == 'N' && u[6] == 'C' && is_sep(u[7]));
                if e1 < s.len() {
                    lemma_next_sep_take(s, k, e1 + 1, true);
                    let e2 = next_sep(s, e1 + 1, true);
                    if e2 > e1 + 1 {
                        assert(next_sep(u, 8, true) == e1);
                        assert(next_sep(u, e1 + 1, true) == e2);
                        assert(u.subrange(e1 + 1, e2) =~= s.subrange(e1 + 1, e2));
                        assert(u.subrange(8, e1) =~= s.subrange(8, e1));
                    } else {
                        assert(s.subrange(e1 + 1, e2) =~= Seq::<char>::empty());
                        if e1 < k {
                            assert(next_sep(u, e1 + 1, true) == e1 + 1);
                            assert(u.subrange(e1 + 1, e1 + 1) =~= Seq::<char>::empty());
                        }
                        assert(u.subrange(8, e1) =~= s.subrange(8, e1));
                    }
                } else {
                    assert(u.subrange(8, e1) =~= s.subrange(8, e1));
                }
                assert(parse_prefix(u) == parse_prefix(s));
            } else if drive_at(s, 4) && (s.len() == 6 || s[6] == '\\') {
                assert(k >= 6);
                if k > 6 {
                    assert(u[6] == s[6]);
                }
                assert(parse_prefix(u) == parse_prefix(s));
            } else {
                lemma_next_sep(s, 4, true);
                lemma_next_sep_take(s, k, 4, true);
                let e = next_sep(s, 4, true);
                if drive_at(s, 4) {
                    assert(!sep_in(true, s[6]));
                    assert(e > 6);
                }
                if s.len() >= 8 && k < 8 {
                    assert(!sep_in(true, s[7]) || !(s[4] == 'U' && s[5] == 'N' && s[6] == 'C'));
                }
                assert(u.subrange(4, e) =~= s.subrange(4, e));
                assert(parse_prefix(u) == parse_prefix(s));
            }
        } else if s.len() >= 4 && s[2] == '.' && is_sep(s[3]) {
            lemma_next_sep(s, 4, false);
            lemma_next_sep_take(s, k, 4, false);
            let e = next_sep(s, 4, false);
            assert(u.subrange(4, e) =~= s.subrange(4, e));
            assert(parse_prefix(u) == parse_prefix(s));
        } else {
            lemma_next_sep(s, 2, false);
            lemma_next_sep_take(s, k, 2, false);
            let e1 = next_sep(s, 2, false);
            if e1 < s.len() {
                lemma_next_sep(s, e1 + 1, false);
                lemma_next_sep_take(s, k, e1 + 1, false);
                let e2 = next_sep(s, e1 + 1, false);
                if e1 > 2 && e2 > e1 + 1 {
                    assert(u.subrange(2, e1) =~= s.subrange(2, e1));
                    assert(u.subrange(e1 + 1, e2) =~= s.subrange(e1 + 1, e2));
                }
            }
            assert(parse_prefix(u) == parse_prefix(s));
        }
    }
}

/// Where the components of a path start: after its prefix, and in a
/// verbatim path also after the root separator.
spec fn components_start(s: Seq<char>) -> int {
    if is_verbatim(s) && has_physical_root(s) {
        prefix_len(s) + 1
    } else {
        prefix_len(s)
    }
}

/// Cutting a path after the start of its components, and past its root
/// separator when it has one, keeps its prefix and root, and cuts the text
/// its components are read from at the same place.
proof fn lemma_take_parts(s: Seq<char>, k: int)
    requires
        components_start(s) <= k <= s.len(),
        has_physical_root(s) ==> k > prefix_len(s),
    ensures
        parse_prefix(s.take(k)) == parse_prefix(s),
        has_root(s.take(k)) == has_root(s),
        component_text(s) == s.skip(components_start(s)),
        component_text(s.take(k)) == component_text(s).take(k - components_start(s)),
{
    lemma_prefix_len_bound(s);
    lemma_prefix_take(s, k);
    let u = s.take(k);
    let l = prefix_len(s);
    assert(prefix_len(u) == l);
    assert(is_verbatim(u) == is_verbatim(s));
    assert(path_body(u) =~= path_body(s).take(k - l));
    if has_physical_root(s) {
        assert(path_body(u)[0] == path_body(s)[0]);
    }
    if k > l {
        assert(path_body(u)[0] == path_body(s)[0]);
    }
    assert(has_physical_root(u) == has_physical_root(s));
    if is_verbatim(s) && has_physical_root(s) {
        assert(component_text(s) =~= s.skip(l + 1));
        assert(component_text(u) =~= s.skip(l + 1).take(k - l - 1));
    } else {
        assert(component_text(s) =~= s.skip(l));
        assert(component_text(u) =~= s.skip(l).take(k - l));
    }
}

proof fn lemma_next_sep_agree(s: Seq<char>, x: Seq<char>, k: int, i: int, vb: bool)
    requires
        0 <= i < k <= s.len(),
        k <= x.len(),
        forall|j: int| 0 <= j < k ==> #[trigger] x[j] == s[j],
        sep_in(vb, s[k - 1]),
    ensures
        next_sep(x, i, vb) == next_sep(s, i, vb),
        next_sep(s, i, vb) < k,
    decreases k - i,
{
    assert(x[i] == s[i]);
    if !sep_in(vb, s[i]) {
        lemma_next_sep_agree(s, x, k, i + 1, vb);
    }
}

proof fn lemma_next_sep_none(x: Seq<char>, i: int, vb: bool)
    requires
        0 <= i,
        forall|j: int| i <= j < x.len() ==> !sep_in(vb, #[trigger] x[j]),
    ensures
        next_sep(x, i, vb) == x.len(),
    decreases x.len() - i,
{
    if i < x.len() {
        lemma_next_sep_none(x, i + 1, vb);
    }
}

/// A share or device prefix ends where a separator or the path ends.
proof fn lemma_prefix_end(s: Seq<char>)
    requires
        parse_prefix(s) matches Some(p) && (p.kind is Unc || p.kind is DeviceNs),
        prefix_len(s) < s.len(),
    ensures
        is_sep(s[prefix_len(s)]),
{
    if s.len() >= 4 && s[2] == '.' && is_sep(s[3]) {
        lemma_next_sep(s, 4, false);
    } else {
        lemma_next_sep(s, 2, false);
        let e1 = next_sep(s, 2, false);
        if e1 < s.len() {
            lemma_next_sep(s, e1 + 1, false);
        }
    }
}

/// A plain name put in place of what follows a folder part of a path (the
/// path up to a separator before a component) leaves the prefix as it is,
/// outside verbatim paths.
proof fn lemma_prefix_after_folder(s: Seq<char>, k: int, n: Seq<char>)
    requires
        prefix_len(s) <= k < s.len(),
        1 <= k,
        is_sep(s[k - 1]),
        !is_sep(s[k]),
        !is_verbatim(s),
        n.len() > 0,
        forall|i: int| 0 <= i < n.len() ==> !is_sep(#[trigger] n[i]),
    ensures
        parse_prefix(s.take(k) + n) == parse_prefix(s),
{
    lemma_prefix_len_bound(s);
    let x = s.take(k) + n;
    assert forall|j: int| 0 <= j < k implies #[trigger] x[j] == s[j] by {}
    assert(x[k] == n[0]);
    assert forall|j: int| k <= j < x.len() implies !sep_in(false, #[trigger] x[j]) by {
        assert(x[j] == n[j - k]);
    }
    assert(sep_in(false, s[k - 1]));
    lemma_next_sep_none(x, k, false);
    if k >= 3 {
        lemma_next_sep_agree(s, x, k, 2, false);
        lemma_next_sep(s, 2, false);
        let e1 = next_sep(s, 2, false);
        lemma_next_sep(s, e1 + 1, false);
        if e1 + 1 < k {
            lemma_next_sep_agree(s, x, k, e1 + 1, false);
            assert(x.subrange(2, e1) =~= s.subrange(2, e1));
            assert(x.subrange(e1 + 1, next_sep(s, e1 + 1, false)) =~= s.subrange(
                e1 + 1,
                next_sep(s, e1 + 1, false),
            ));
        }
    } else {
        lemma_next_sep(s, 2, false);
    }
    if k >= 5 {
        lemma_next_sep(s, 4, false);
        lemma_next_sep_agree(s, x, k, 4, false);
        assert(x.subrange(4, next_sep(s, 4, false)) =~= s.subrange(4, next_sep(s, 4, false)));
    } else if s.len() >= 4 {
        lemma_next_sep(s, 4, false);
    }
}

/// A verbatim prefix ends where a `\` or the path ends.
proof fn lemma_verbatim_prefix_end(s: Seq<char>)
    requires
        is_verbatim(s),
        prefix_len(s) < s.len(),
    ensures
        s[prefix_len(s)] == '\\',
{
    if s.len() >= 8 && s[4] == 'U' && s[5] == 'N' && s[6] == 'C' && is_sep(s[7]) {
        lemma_next_sep(s, 8, true);
        let e1 = next_sep(s, 8, true);
        if e1 < s.len() {
            lemma_next_sep(s, e1 + 1, true);
        }
    } else if drive_at(s, 4) && (s.len() == 6 || s[6] == '\\') {
    } else {
        lemma_next_sep(s, 4, true);
    }
}

/// A verbatim path whose prefix is followed by `\` has the prefix of any
/// text that agrees with it up to and including that `\`, unless it is a
/// share prefix without a share name.
proof fn lemma_verbatim_prefix_head(s: Seq<char>, x: Seq<char>)
    requires
        is_verbatim(s),
        !is_shareless_verbatim_unc(s),
        prefix_len(s) < s.len(),
        s[prefix_len(s)] == '\\',
        prefix_len(s) < x.len(),
        forall|j: int| 0 <= j <= prefix_len(s) ==> #[trigger] x[j] == s[j],
    ensures
        parse_prefix(x) == parse_prefix(s),
{
    let l = prefix_len(s);
    lemma_prefix_len_bound(s);
    assert forall|j: int| 0 <= j < l + 1 implies #[trigger] x[j] == s[j] by {}
    assert(sep_in(true, s[l]));
    if s.len() >= 8 && s[4] == 'U' && s[5] == 'N' && s[6] == 'C' && is_sep(s[7]) {
        lemma_next_sep(s, 8, true);
        let e1 = next_sep(s, 8, true);
        if e1 < s.len() {
            lemma_next_sep(s, e1 + 1, true);
        }
        assert(l >= 8);
        lemma_next_sep_agree(s, x, l + 1, 8, true);
        assert(e1 < l);
        lemma_next_sep_agree(s, x, l + 1, e1 + 1, true);
        let e2 = next_sep(s, e1 + 1, true);
        assert(x.subrange(8, e1) =~= s.subrange(8, e1));
        assert(x.subrange(e1 + 1, e2) =~= s.subrange(e1 + 1, e2));
    } else if drive_at(s, 4) && (s.len() == 6 || s[6] == '\\') {
        assert(l == 6);
    } else {
        lemma_next_sep(s, 4, true);
        lemma_next_sep_agree(s, x, l + 1, 4, true);
        let e = next_sep(s, 4, true);
        assert(x.subrange(4, e) =~= s.subrange(4, e));
        if l >= 7 {
            assert(x[6] == s[6]);
        }
        if x.len() >= 8 && l >= 7 {
            assert(x[7] == s[7]);
        }
    }
}

/// Joining a name to a verbatim path cut after its prefix and root keeps the
/// prefix, unless it is a share prefix without a share name.
proof fn lemma_verbatim_folder_join_prefix(s: Seq<char>, k: int, name: Seq<char>)
    requires
        is_verbatim(s),
        !is_shareless_verbatim_unc(s),
        prefix_len(s) < k <= s.len(),
        s[prefix_len(s)] == '\\',
    ensures
        parse_prefix(join_spec(s.take(k), name)) == parse_prefix(s.take(k)),
{
    lemma_prefix_len_bound(s);
    lemma_prefix_take(s, k);
    let d = s.take(k);
    let l = prefix_len(s);
    let x = join_spec(d, name);
    assert(prefix_len(d) == l);
    let y = join_with_sep(path_components(d).push(name));
    assert(x == d.take(l) + seq!['\\'] + y);
    assert forall|j: int| 0 <= j <= l implies #[trigger] x[j] == s[j] by {
        if j < l {
            assert(x[j] == d[j]);
        } else {
            assert(x[j] == '\\');
        }
    }
    lemma_verbatim_prefix_head(s, x);
}

proof fn lemma_join_with_sep_first(l: Seq<Seq<char>>)
    requires
        l.len() >= 2,
    ensures
        join_with_sep(l) == l[0] + seq!['\\'] + join_with_sep(l.drop_first()),
    decreases l.len(),
{
    if l.len() == 2 {
        assert(l.drop_last() =~= seq![l[0]]);
        assert(l.drop_first() =~= seq![l[1]]);
        assert(join_with_sep(l.drop_last()) == l[0]);
        assert(join_with_sep(l.drop_first()) == l[1]);
    } else {
        let p = l.drop_last();
        lemma_join_with_sep_first(p);
        assert(p.drop_first() =~= l.drop_first().drop_last());
        assert(l.drop_first().last() == l.last());
        assert(join_with_sep(l) =~= l[0] + seq!['\\'] + join_with_sep(l.drop_first()));
    }
}

/// A verbatim share prefix without a share name, followed by `\`, a
/// component and `\`, reads that component as the share.
proof fn lemma_shareless_prefix(d: Seq<char>, c0: Seq<char>, r: Seq<char>)
    requires
        is_shareless_verbatim_unc(d),
        prefix_len(d) < d.len(),
        d[prefix_len(d)] == '\\',
        c0.len() > 0,
        forall|i: int| 0 <= i < c0.len() ==> !sep_in(true, #[trigger] c0[i]),
    ensures
        parse_prefix(d.take(prefix_len(d)) + seq!['\\'] + c0 + seq!['\\'] + r) == Some(
            PrefixSpec {
                kind: PrefixKind::VerbatimUnc,
                first: d.subrange(8, prefix_len(d)),
                second: c0,
                len: prefix_len(d) + 1 + c0.len(),
            },
        ),
        parse_prefix(d)->0.first == d.subrange(8, prefix_len(d)),
{
    let l = prefix_len(d);
    let x = d.take(l) + seq!['\\'] + c0 + seq!['\\'] + r;
    let e2 = l + 1 + c0.len();
    lemma_prefix_len_bound(d);
    lemma_next_sep(d, 8, true);
    let e1 = next_sep(d, 8, true);
    if e1 < d.len() {
        lemma_next_sep(d, e1 + 1, true);
    }
    assert(e1 == l);
    assert(x[l] == '\\');
    assert(x[e2] == '\\');
    assert forall|j: int| 0 <= j < l + 1 implies #[trigger] x[j] == d[j] by {}
    lemma_next_sep_agree(d, x, l + 1, 8, true);
    assert forall|i: int| l + 1 <= i < e2 implies !sep_in(true, #[trigger] x[i]) by {
        assert(x[i] == c0[i - l - 1]);
    }
    lemma_next_sep(x, l + 1, true);
    assert(next_sep(x, l + 1, true) == e2);
    assert(x.subrange(8, l) =~= d.subrange(8, l));
    assert(x.subrange(l + 1, e2) =~= c0);
}

/// A verbatim path whose prefix is followed by `\` and `r` has a root, and
/// its components are read from `r`.
proof fn lemma_verbatim_parts(x: Seq<char>, r: Seq<char>)
    requires
        is_verbatim(x),
        0 <= prefix_len(x) < x.len(),
        x.skip(prefix_len(x)) == seq!['\\'] + r,
    ensures
        has_root(x),
        component_text(x) == r,
{
    assert(path_body(x) == seq!['\\'] + r);
    assert(has_physical_root(x));
    assert((seq!['\\'] + r).skip(1) =~= r);
}

/// Components joined with `\` read back, in a verbatim path, as those
/// components.
proof fn lemma_keep_rebuilt(l: Seq<Seq<char>>)
    requires
        l.len() >= 1,
        no_sep_segments(l, true),
        all_nonempty(l),
    ensures
        keep_components(split_segments(join_with_sep(l), true), true, false) == l,
{
    lemma_split_join(l);
    assert forall|k: int| 0 <= k < l.drop_first().len() implies (#[trigger] l.drop_first()[k]).len()
        > 0 by {
        assert(l.drop_first()[k] == l[k + 1]);
    }
    lemma_keep_all(l.drop_first());
    assert(seq![l[0]] + l.drop_first() =~= l);
}

/// Joining a plain name to a folder with components under a verbatim share
/// prefix without a share name makes the folder's first component the share
/// of the joined path.
pub proof fn lemma_shareless_join(d: Seq<char>, name: Seq<char>)
    requires
        is_shareless_verbatim_unc(d),
        path_components(d).len() > 0,
        is_plain_name(name),
    ensures
        prefix_key(join_spec(d, name)) == Some(
            (PrefixKind::VerbatimUnc, parse_prefix(d)->0.first, path_components(d)[0]),
        ),
        has_root(join_spec(d, name)),
        path_components(join_spec(d, name)) == path_components(d).drop_first().push(name),
{
    let l = prefix_len(d);
    let c = path_components(d);
    lemma_prefix_len_bound(d);
    if l == d.len() {
        assert(path_body(d) =~= Seq::<char>::empty());
        assert(component_text(d) =~= Seq::<char>::empty());
        lemma_keep_components_single(Seq::<char>::empty(), true, false);
        assert(false);
    }
    lemma_verbatim_prefix_end(d);
    lemma_split_no_sep(component_text(d), true);
    lemma_keep_components_props(split_segments(component_text(d), true), true, false);
    let cn = c.push(name);
    let c0 = c[0];
    let rest = cn.drop_first();
    assert(cn[0] == c0);
    assert(rest =~= c.drop_first().push(name));
    assert forall|i: int| 0 <= i < c0.len() implies !sep_in(true, #[trigger] c0[i]) by {
        assert(c[0][i] == c0[i]);
    }
    assert forall|k: int, i: int| 0 <= k < rest.len() && 0 <= i < rest[k].len() implies !sep_in(
        true,
        #[trigger] rest[k][i],
    ) by {
        if k < c.len() - 1 {
            assert(rest[k] == c[k + 1]);
        } else {
            assert(rest[k] == name);
            assert(!is_sep(name[i]));
        }
    }
    assert forall|k: int| 0 <= k < rest.len() implies (#[trigger] rest[k]).len() > 0 by {
        if k < c.len() - 1 {
            assert(rest[k] == c[k + 1]);
        } else {
            assert(rest[k] == name);
        }
    }
    lemma_join_with_sep_first(cn);
    let r = join_with_sep(rest);
    let x = join_spec(d, name);
    assert(x =~= d.take(l) + seq!['\\'] + c0 + seq!['\\'] + r);
    lemma_shareless_prefix(d, c0, r);
    let e2 = l + 1 + c0.len();
    assert(x.skip(e2) =~= seq!['\\'] + r);
    lemma_verbatim_parts(x, r);
    lemma_keep_rebuilt(rest);
}

/// Joining a plain name to the folder part of a path that is not verbatim
/// (the path up to its prefix, or up to a separator before a component)
/// leaves the prefix as it is.
proof fn lemma_folder_join_prefix(s: Seq<char>, k: int, name: Seq<char>)
    requires
        !is_verbatim(s),
        prefix_len(s) <= k < s.len(),
        !is_sep(s[k]),
        k == prefix_len(s) || (k >= 1 && is_sep(s[k - 1])),
        is_plain_name(name),
    ensures
        parse_prefix(join_spec(s.take(k), name)) == parse_prefix(s.take(k)),
{
    lemma_prefix_len_bound(s);
    lemma_prefix_take(s, k);
    let d = s.take(k);
    assert(!is_verbatim(d));
    if k >= 1 && is_sep(s[k - 1]) {
        assert(d.last() == s[k - 1]);
        assert(join_spec(d, name) == d + name);
        lemma_prefix_after_folder(s, k, name);
    } else {
        if parse_prefix(s) matches Some(p) && (p.kind is Unc || p.kind is DeviceNs) {
            lemma_prefix_end(s);
        }
        if k == 0 {
            assert(d + name =~= name);
            assert(join_spec(d, name) == name);
            assert(!is_sep(name[0]));
        } else {
            assert(parse_prefix(s) matches Some(p) && p.kind is Disk);
            assert(is_bare_drive(d));
            let x = d + name;
            assert(x[0] == s[0] && x[1] == s[1]);
            assert(join_spec(d, name) == x);
        }
    }
}

/// Whether the characters `s[a..b]` count as a component when they form
/// the first segment of a path (`lead`: of a path without prefix).
fn range_kept(s: &Vec<char>, a: usize, b: usize, vb: bool, lead: bool) -> (r: bool)
    requires
        a <= b <= s.len(),
    ensures
        r == is_kept_first(s@.subrange(a as int, b as int), vb, lead),
{
    let ghost g = s@.subrange(a as int, b as int);
    if lead {
        b > a
    } else {
        let dot = b - a == 1 && s[a] == '.';
        proof {
            if g == seq!['.'] {
                assert(g.len() == 1 && g[0] == '.');
            }
            if dot {
                assert(g =~= seq!['.']);
            }
        }
        b > a && (vb || !dot)
    }
}

/// Where the last component of the text `s[start..]` begins, counted from
/// `start`, when the text has components: the text cut there has all its
/// components but the last. The component begins with a character that is
/// no separator, and a separator comes just before it unless it begins the
/// text.
fn last_component_start(s: &Vec<char>, start: usize, vb: bool, lead: bool) -> (r: Option<usize>)
    requires
        start <= s.len(),
    ensures
        (r is Some) == (keep_components(split_segments(s@.skip(start as int), vb), vb, lead).len()
            > 0),
        r matches Some(p) ==> {
            &&& p <= s.len() - start
            &&& keep_components(split_segments(s@.skip(start as int).take(p as int), vb), vb, lead)
                == keep_components(split_segments(s@.skip(start as int), vb), vb, lead).drop_last()
            &&& start + p < s.len()
            &&& !sep_in(vb, s@[start + p])
            &&& (p > 0 ==> sep_in(vb, s@[start + p - 1]))
        },
{
    let ghost t = s@.skip(start as int);
    let mut i: usize = start;
    let mut seg: usize = start;
    let mut first = true;
    let mut last: Option<usize> = None;
    let ghost mut done: Seq<Seq<char>> = Seq::<Seq<char>>::empty();
    proof {
        assert(t.take(0) =~= Seq::<char>::empty());
        assert(split_segments(Seq::<char>::empty(), vb) == seq![Seq::<char>::empty()]);
        assert(seq![Seq::<char>::empty()].drop_last() =~= Seq::<Seq<char>>::empty());
        lemma_keep_components_single(Seq::<char>::empty(), vb, lead);
        assert(t.subrange(0, 0) =~= Seq::<char>::empty());
    }
    while i < s.len()
        invariant
            start <= seg <= i <= s.len(),
            t == s@.skip(start as int),
            split_segments(t.take(i - start), vb).len() >= 1,
            first == (split_segments(t.take(i - start), vb).len() == 1),
            first ==> seg == start,
            split_segments(t.take(i - start), vb).last() == t.subrange(seg - start, i - start),
            forall|j: int| seg <= j < i ==> !sep_in(vb, #[trigger] s@[j]),
            seg > start ==> sep_in(vb, s@[seg - 1]),
            done == keep_components(split_segments(t.take(i - start), vb).drop_last(), vb, lead),
            done == keep_components(split_segments(t.take(seg - start), vb), vb, lead),
            (last is Some) == (done.len() > 0),
            last matches Some(p) ==> {
                &&& p <= seg - start
                &&& keep_components(split_segments(t.take(p as int), vb), vb, lead)
                    == done.drop_last()
                &&& start + p < s.len()
                &&& !sep_in(vb, s@[start + p])
                &&& (p > 0 ==> sep_in(vb, s@[start + p - 1]))
            },
        decreases s.len() - i,
    {
        let ghost pre = t.take(i - start);
        let ghost post = t.take(i + 1 - start);
        let ghost segs = split_segments(pre, vb);
        let ghost g = t.subrange(seg - start, i - start);
        proof {
            assert(post.drop_last() =~= pre);
            assert(post.last() == s@[i as int]);
            lemma_split_nonempty(pre, vb);
        }
        if sep_in_exec(vb, s[i]) {
            let kept = if first {
                range_kept(s, seg, i, vb, lead)
            } else {
                range_kept(s, seg, i, vb, false)
            };
            proof {
                assert(s@.subrange(seg as int, i as int) =~= g);
                assert(split_segments(post, vb) == segs.push(Seq::<char>::empty()));
                assert(segs.push(Seq::<char>::empty()).drop_last() =~= segs);
                if first {
                    assert(segs =~= seq![g]);
                    lemma_keep_components_single(g, vb, lead);
                    assert(segs.drop_last() =~= Seq::<Seq<char>>::empty());
                } else {
                    assert(segs =~= segs.drop_last().push(g));
                    lemma_keep_components_push(segs.drop_last(), g, vb, lead);
                }
                lemma_keep_components_push(segs, Seq::<char>::empty(), vb, lead);
                assert(t.take(i + 1 - start) == post);
                if kept {
                    assert(keep_components(segs, vb, lead) =~= done.push(g));
                    assert(done.push(g).drop_last() =~= done);
                    assert(g.len() > 0);
                    assert(s@[seg as int] == g[0]);
                } else {
                    assert(keep_components(segs, vb, lead) == done);
                }
            }
            if kept {
                last = Some(seg - start);
            }
            proof {
                done = keep_components(segs, vb, lead);
            }
            seg = i + 1;
            first = false;
            proof {
                assert(t.subrange(seg - start, i + 1 - start) =~= Seq::<char>::empty());
            }
        } else {
            proof {
                assert(split_segments(post, vb) == segs.update(
                    segs.len() - 1,
                    segs.last().push(s@[i as int]),
                ));
                assert(segs.update(segs.len() - 1, segs.last().push(s@[i as int])).drop_last()
                    =~= segs.drop_last());
                assert(t.subrange(seg - start, i + 1 - start) =~= g.push(s@[i as int]));
            }
        }
        i = i + 1;
    }
    proof {
        assert(t.take(s.len() - start) =~= t);
        lemma_split_nonempty(t, vb);
    }
    let ghost segs = split_segments(t, vb);
    let ghost g = t.subrange(seg - start, s.len() - start);
    let kept = if first {
        range_kept(s, seg, s.len(), vb, lead)
    } else {
        range_kept(s, seg, s.len(), vb, false)
    };
    proof {
        assert(s@.subrange(seg as int, s.len() as int) =~= g);
        if first {
            assert(segs =~= seq![g]);
            lemma_keep_components_single(g, vb, lead);
            assert(segs.drop_last() =~= Seq::<Seq<char>>::empty());
        } else {
            assert(segs =~= segs.drop_last().push(g));
            lemma_keep_components_push(segs.drop_last(), g, vb, lead);
        }
    }
    if kept {
        proof {
            assert(keep_components(segs, vb, lead) =~= done.push(g));
            assert(done.push(g).drop_last() =~= done);
            assert(g.len() > 0);
            assert(s@[seg as int] == g[0]);
        }
        Some(seg - start)
    } else {
        last
    }
}

/// The folder that holds the last component of a path, as `Path::parent`
/// finds it: the path cut just before its last component (a separator
/// before that component stays). There is none when the path has no
/// component, such as `C:\` or `\\server\share`. The folder keeps the
/// path's prefix and root, and its components are the path's components
/// but the last. Joining a plain name to it keeps its prefix, unless the
/// path starts with a verbatim share prefix without a share name, such as
/// `\\?\UNC\server\`.
pub fn working_folder(path: &str) -> (r: Option<String>)
    ensures
        (r is Some) == (path_components(path@).len() > 0),
        r matches Some(d) ==> {
            &&& d@.len() <= path@.len()
            &&& d@ == path@.take(d@.len() as int)
            &&& prefix_key(d@) == prefix_key(path@)
            &&& has_root(d@) == has_root(path@)
            &&& path_components(d@) == path_components(path@).drop_last()
        },
        file_name_spec(path@) is Some ==> (r matches Some(d) && parent_key(path@) == Some(
            (prefix_key(d@), has_root(d@), path_components(d@)),
        )),
        r matches Some(d) ==> (!is_shareless_verbatim_unc(path@) ==> forall|name: Seq<char>|
            is_plain_name(name) ==> #[trigger] parse_prefix(join_spec(d@, name)) == parse_prefix(
                d@,
            )),
{
    let s = chars_of(path);
    let prefix = parse_prefix_exec(&s);
    let (start, vb, lead) = match &prefix {
        Some(q) => (q.len, is_verbatim_kind(q.kind), false),
        None => (0, false, true),
    };
    proof {
        assert(path_body(s@) =~= s@.skip(start as int));
        assert(vb == is_verbatim(s@));
    }
    let physical = start < s.len() && is_sep_exec(s[start]);
    let text_start = if vb && physical {
        start + 1
    } else {
        start
    };
    proof {
        assert(component_text(s@) =~= s@.skip(text_start as int));
        assert(text_start == components_start(s@));
    }
    match last_component_start(&s, text_start, vb, lead) {
        None => None,
        Some(p) => {
            let k = text_start + p;
            proof {
                if has_physical_root(s@) && !vb {
                    assert(p > 0);
                }
                lemma_take_parts(s@, k as int);
                if !vb {
                    assert forall|name: Seq<char>| is_plain_name(name) implies #[trigger] parse_prefix(
                        join_spec(s@.take(k as int), name),
                    ) == parse_prefix(s@.take(k as int)) by {
                        lemma_folder_join_prefix(s@, k as int, name);
                    }
                } else {
                    lemma_prefix_len_bound(s@);
                    lemma_verbatim_prefix_end(s@);
                    if !is_shareless_verbatim_unc(s@) {
                        assert forall|name: Seq<char>| is_plain_name(name) implies #[trigger] parse_prefix(
                            join_spec(s@.take(k as int), name),
                        ) == parse_prefix(s@.take(k as int)) by {
                            lemma_verbatim_folder_join_prefix(s@, k as int, name);
                        }
                    }
                }
            }
            let v = copy_range(&s, 0, k);
            proof {
                assert(v@ =~= s@.take(k as int));
            }
            let d = string_from_chars(&v);
            proof {
                assert(path@.take(d@.len() as int) =~= d@);
            }
            Some(d)
        }
    }
}

/// Two plain names joined to the same folder give two paths in that folder:
/// each has its own name as file name, they share the same folder part, and
/// different names give different paths. This holds wherever joining does
/// not turn the end of `dir` into part of a prefix, as it does for
/// `\\server`, which becomes the prefix `\\server\name`.
pub proof fn law_joined_names_share_folder(dir: Seq<char>, a: Seq<char>, b: Seq<char>)
    requires
        is_plain_name(a),
        is_plain_name(b),
        parse_prefix(join_spec(dir, a)) == parse_prefix(dir),
        parse_prefix(join_spec(dir, b)) == parse_prefix(dir),
    ensures
        file_name_spec(join_spec(dir, a)) == Some(a),
        file_name_spec(join_spec(dir, b)) == Some(b),
        parent_key(join_spec(dir, a)) == parent_key(join_spec(dir, b)),
        a != b ==> !same_path_spec(join_spec(dir, a), join_spec(dir, b)),
{
    lemma_join_parts(dir, a);
    lemma_join_parts(dir, b);
    let ca = joined_base_components(dir).push(a);
    let cb = joined_base_components(dir).push(b);
    assert(ca.drop_last() =~= cb.drop_last());
    assert(ca.last() == a);
    assert(cb.last() == b);
}

} // verus!
