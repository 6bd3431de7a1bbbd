//! Flags paths whose deletion is risky: user configuration and data
//! folders, hidden folders in the home directory, application bundles,
//! hidden entries on network shares, and Windows system folders.
//!
//! Paths are compared in a normal form: backslashes become slashes, the text
//! is lowercased, and a leading `x:` drive letter is dropped.
use vstd::prelude::*;
use crate::text::{
    char_end, chars_of, contains, ends_with, extend_chars, find_from, first_occurrence,
    forward_slashes, has_prefix, has_substring, has_suffix, is_ascii_alpha, is_ascii_alphabetic,
    is_ascii_lower, join_with, lemma_join_push, lemma_seg_end, lemma_seg_end_bounds, lowercase,
    occurs_at, same_chars, seg_end, slashes_forward, slice_chars, split_on, starts_with,
    string_of, to_lowercase,
};

verus! {

pub open spec fn config_reason() -> Seq<char> {
    "Contains user configuration data (~/.config)"@
}

pub open spec fn data_reason() -> Seq<char> {
    "User data folder (~/.local/share)"@
}

pub open spec fn cache_reason() -> Seq<char> {
    "System-wide cache directory (~/.cache)"@
}

pub open spec fn hidden_reason() -> Seq<char> {
    "Contains unsafe hidden folder"@
}

pub open spec fn app_package_reason() -> Seq<char> {
    "Inside macOS .app package"@
}

pub open spec fn share_reason() -> Seq<char> {
    "Hidden path in network share"@
}

pub open spec fn roaming_reason() -> Seq<char> {
    "Inside Windows AppData Roaming folder"@
}

pub open spec fn local_reason() -> Seq<char> {
    "Inside Windows AppData Local folder"@
}

pub open spec fn program_files_reason() -> Seq<char> {
    "Inside Program Files folder"@
}

/// `s` begins with an ASCII letter, a colon and a forward slash.
pub open spec fn drive_prefixed(s: Seq<char>) -> bool {
    s.len() >= 3 && is_ascii_alpha(s[0]) && s[1] == ':' && s[2] == '/'
}

/// `s` begins with an ASCII letter, a colon and a slash of either kind.
pub open spec fn drive_shaped(s: Seq<char>) -> bool {
    s.len() >= 3 && is_ascii_alpha(s[0]) && s[1] == ':' && (s[2] == '/' || s[2] == '\\')
}

/// The drive prefix of `value` is well defined: whenever its lowercased form
/// `lowered` begins like a drive (`x:/`), `value` itself begins with an ASCII
/// letter, a colon and a slash, so that its first two characters (and bytes)
/// are the letter and the colon.
pub open spec fn drive_prefix_defined(value: Seq<char>, lowered: Seq<char>) -> bool {
    drive_prefixed(lowered) ==> drive_shaped(value)
}

/// The first two characters of `value` when it, or its lowercased form,
/// begins like a drive.
pub open spec fn drive_prefix_spec(value: Seq<char>, lowered: Seq<char>) -> Option<Seq<char>> {
    if drive_prefixed(value) || drive_prefixed(lowered) || drive_shaped(value) {
        Some(value.take(2))
    } else {
        None
    }
}

/// A lowercased text with a leading `x:/` loses its drive letter and colon.
pub open spec fn strip_drive(lowered: Seq<char>) -> Seq<char> {
    if lowered.len() >= 3 && is_ascii_lower(lowered[0]) && lowered[1] == ':' && lowered[2] == '/' {
        lowered.skip(2)
    } else {
        lowered
    }
}

/// The normal form in which paths are compared.
pub open spec fn normal_form(s: Seq<char>) -> Seq<char> {
    strip_drive(lowercase(slashes_forward(s)))
}

/// One path segment applied to the segments kept so far: empty and `.`
/// segments are dropped, `..` removes the last kept segment.
pub open spec fn step_segments(kept: Seq<Seq<char>>, seg: Seq<char>) -> Seq<Seq<char>> {
    if seg.len() == 0 || seg == "."@ {
        kept
    } else if seg == ".."@ {
        if kept.len() == 0 {
            kept
        } else {
            kept.drop_last()
        }
    } else {
        kept.push(seg)
    }
}

pub open spec fn fold_segments(segs: Seq<Seq<char>>) -> Seq<Seq<char>>
    decreases segs.len(),
{
    if segs.len() == 0 {
        Seq::empty()
    } else {
        step_segments(fold_segments(segs.drop_last()), segs.last())
    }
}

pub open spec fn joined_path(original: Seq<char>, cwd: Seq<char>) -> Seq<char> {
    cwd + seq!['/'] + original
}

/// `original` resolved against `cwd`: joined with a slash, split into
/// segments, `.` and `..` applied, and put back together under the drive
/// prefix or the root it had.
pub open spec fn resolved(original: Seq<char>, cwd: Seq<char>) -> Seq<char> {
    let joined = joined_path(original, cwd);
    let prefixed = drive_shaped(joined);
    let rest = if prefixed { joined.skip(2) } else { joined };
    let body = join_with(fold_segments(split_on(rest, '/')), '/');
    if prefixed {
        joined.take(2) + seq!['/'] + body
    } else if rest.len() > 0 && rest[0] == '/' {
        seq!['/'] + body
    } else {
        body
    }
}

/// Where `normal_path` lies inside the normalized home `normal_home`, what
/// the home rules decide: `Some(Some(reason))` flags it, `Some(None)` clears
/// it, `None` leaves it to the remaining rules.
pub open spec fn home_verdict(normal_path: Seq<char>, normal_home: Seq<char>) -> Option<Option<Seq<char>>> {
    let in_home = normal_path == normal_home || starts_with(normal_path, normal_home + seq!['/']);
    if !in_home {
        None
    } else {
        let tail = normal_path.skip(normal_home.len() as int);
        let rel = if tail.len() > 0 && tail[0] == '/' { tail.drop_first() } else { tail };
        let top = rel.take(seg_end(rel, '/') as int);
        if rel == ".config"@ || starts_with(rel, ".config/"@) {
            Some(Some(config_reason()))
        } else if rel == ".local/share"@ || starts_with(rel, ".local/share/"@) {
            Some(Some(data_reason()))
        } else if rel == ".cache"@ || starts_with(rel, ".cache/"@) {
            Some(Some(cache_reason()))
        } else if rel == ".npm"@ || starts_with(rel, ".npm/"@) || rel == ".pnpm"@ || starts_with(
            rel,
            ".pnpm/"@,
        ) {
            Some(None)
        } else if top.len() > 0 && top[0] == '.' && top != "."@ && top != ".."@ {
            Some(Some(hidden_reason()))
        } else {
            None
        }
    }
}

/// Scanning `rest` from the left, some occurrence of `marker` found after the
/// previous one is followed by a non-empty segment ending in `.app` and by a
/// slash with more text after it.
pub open spec fn app_package_from(rest: Seq<char>, marker: Seq<char>) -> bool
    decreases rest.len(),
{
    if marker.len() > 0 && exists|i: int| first_occurrence(rest, marker, i) {
        let i = choose|i: int| first_occurrence(rest, marker, i);
        let after = rest.skip(i + marker.len());
        let k = seg_end(after, '/') as int;
        (0 < k && ends_with(after.take(k), ".app"@) && k + 1 < after.len()) || app_package_from(
            after,
            marker,
        )
    } else {
        false
    }
}

pub open spec fn app_package_in(normal_path: Seq<char>) -> bool {
    app_package_from(normal_path, "/applications/"@)
}

pub open spec fn hidden_segment_in(s: Seq<char>) -> bool {
    exists|k: int|
        0 <= k < split_on(s, '/').len() && #[trigger] split_on(s, '/')[k].len() > 0
            && split_on(s, '/')[k][0] == '.' && split_on(s, '/')[k] != "."@
}

pub open spec fn cache_segment_in(s: Seq<char>) -> bool {
    split_on(s, '/').contains(".cache"@) || split_on(s, '/').contains(".npm"@) || split_on(
        s,
        '/',
    ).contains(".pnpm"@)
}

pub open spec fn program_files_in(s: Seq<char>) -> bool {
    contains(s, "program files/"@) || contains(s, "program files (x86)/"@)
}

/// The decision on already normalized texts.
pub open spec fn verdict(
    normal_path: Seq<char>,
    normal_original: Seq<char>,
    normal_home: Option<Seq<char>>,
    is_unc: bool,
) -> Option<Seq<char>> {
    let from_home = match normal_home {
        Some(h) => home_verdict(normal_path, h),
        None => None,
    };
    match from_home {
        Some(v) => v,
        None => if app_package_in(normal_path) {
            Some(app_package_reason())
        } else if is_unc && hidden_segment_in(normal_original) {
            Some(share_reason())
        } else if contains(normal_path, "/appdata/roaming"@) {
            Some(roaming_reason())
        } else if contains(normal_path, "/appdata/local"@) {
            if cache_segment_in(normal_path) {
                None
            } else {
                Some(local_reason())
            }
        } else if program_files_in(normal_path) {
            Some(program_files_reason())
        } else {
            None
        },
    }
}

pub open spec fn is_unc_path(original: Seq<char>) -> bool {
    original.len() >= 2 && original[0] == '/' && original[1] == '/'
}

pub open spec fn is_absolute_path(original: Seq<char>) -> bool {
    (original.len() >= 1 && original[0] == '/') || drive_prefixed(original)
}

/// `original` is resolved against the working directory.
pub open spec fn needs_resolving(original: Seq<char>, cwd: Option<Seq<char>>) -> bool {
    !is_unc_path(original) && !is_absolute_path(original) && cwd is Some
}

/// The risk assessment is defined: where `original` is resolved against the
/// working directory, the joined text has a drive prefix of its own whenever
/// its lowercased form shows one.
pub open spec fn assessable(original: Seq<char>, cwd: Option<Seq<char>>) -> bool {
    needs_resolving(original, cwd) ==> drive_prefix_defined(
        joined_path(original, cwd->0),
        lowercase(joined_path(original, cwd->0)),
    )
}

pub open spec fn absolute_form(original: Seq<char>, cwd: Option<Seq<char>>) -> Seq<char> {
    if needs_resolving(original, cwd) {
        resolved(original, cwd->0)
    } else {
        original
    }
}

pub open spec fn normal_home_of(home: Option<Seq<char>>) -> Option<Seq<char>> {
    match home {
        Some(h) => if h.len() > 0 {
            Some(normal_form(h))
        } else {
            None
        },
        None => None,
    }
}

/// The reason, if any, for which `original` is risky to delete.
pub open spec fn risk_of(
    original: Seq<char>,
    home: Option<Seq<char>>,
    cwd: Option<Seq<char>>,
) -> Option<Seq<char>> {
    verdict(
        normal_form(absolute_form(original, cwd)),
        normal_form(original),
        normal_home_of(home),
        is_unc_path(original),
    )
}

pub open spec fn text_of(s: Option<&str>) -> Option<Seq<char>> {
    match s {
        Some(t) => Some(t@),
        None => None,
    }
}

pub open spec fn views(v: Seq<Vec<char>>) -> Seq<Seq<char>> {
    v.map_values(|x: Vec<char>| x@)
}

proof fn lemma_views_push(v: Seq<Vec<char>>, x: Vec<char>)
    ensures
        views(v.push(x)) == views(v).push(x@),
{
    assert(views(v.push(x)) =~= views(v).push(x@));
}

proof fn lemma_views_drop_last(v: Seq<Vec<char>>)
    requires
        v.len() > 0,
    ensures
        views(v.drop_last()) == views(v).drop_last(),
{
    assert(views(v.drop_last()) =~= views(v).drop_last());
}

proof fn lemma_skip_occurs(s: Seq<char>, needle: Seq<char>, start: int, j: int)
    requires
        0 <= start <= s.len(),
    ensures
        occurs_at(s.skip(start), needle, j) == (j >= 0 && occurs_at(s, needle, j + start)),
{
    if j >= 0 && j + needle.len() <= s.len() - start {
        assert(s.skip(start).subrange(j, j + needle.len()) =~= s.subrange(
            j + start,
            j + start + needle.len(),
        ));
    }
}

/// Splitting at the first separator at or after `start` peels off one piece.
proof fn lemma_split_step(s: Seq<char>, start: int, k: int)
    requires
        0 <= start <= k <= s.len(),
        forall|j: int| start <= j < k ==> s[j] != '/',
        k == s.len() || s[k] == '/',
    ensures
        k == s.len() ==> split_on(s.skip(start), '/') == seq![s.subrange(start, k)],
        k < s.len() ==> split_on(s.skip(start), '/') == seq![s.subrange(start, k)] + split_on(
            s.skip(k + 1),
            '/',
        ),
{
    let t = s.skip(start);
    lemma_seg_end(t, '/', k - start);
    assert(t.take(k - start) =~= s.subrange(start, k));
    if k == s.len() {
        assert(t =~= s.subrange(start, k));
    } else {
        assert(t.skip(k - start + 1) =~= s.skip(k + 1));
    }
}

/// The pieces of `s` between forward slashes.
pub fn split_segments(s: &[char]) -> (r: Vec<Vec<char>>)
    ensures
        views(r@) == split_on(s@, '/'),
{
    let mut out: Vec<Vec<char>> = Vec::new();
    let mut start: usize = 0;
    assert(s@.skip(0) =~= s@);
    loop
        invariant
            start <= s@.len(),
            views(out@) + split_on(s@.skip(start as int), '/') == split_on(s@, '/'),
        decreases s@.len() - start,
    {
        let k = char_end(s, start, '/');
        proof {
            lemma_seg_end_bounds(s@.skip(start as int), '/');
            assert forall|j: int| start <= j < k implies s@[j] != '/' by {
                assert(s@[j] == s@.skip(start as int)[j - start]);
            }
            if k < s@.len() {
                assert(s@[k as int] == s@.skip(start as int)[k - start]);
            }
            lemma_split_step(s@, start as int, k as int);
        }
        let piece = slice_chars(s, start, k);
        proof {
            lemma_views_push(out@, piece);
        }
        out.push(piece);
        if k == s.len() {
            assert(views(out@) =~= split_on(s@, '/'));
            return out;
        }
        assert(views(out@) + split_on(s@.skip(k + 1), '/') =~= split_on(s@, '/'));
        start = k + 1;
    }
}

/// The pieces joined with forward slashes.
pub fn join_segments(pieces: &Vec<Vec<char>>) -> (r: Vec<char>)
    ensures
        r@ == join_with(views(pieces@), '/'),
{
    let mut out: Vec<char> = Vec::new();
    let mut i: usize = 0;
    while i < pieces.len()
        invariant
            i <= pieces@.len(),
            out@ == join_with(views(pieces@).take(i as int), '/'),
        decreases pieces@.len() - i,
    {
        let ghost before = views(pieces@).take(i as int);
        assert(views(pieces@).take(i + 1) =~= before.push(pieces@[i as int]@));
        if i > 0 {
            out.push('/');
            proof {
                lemma_join_push(before, pieces@[i as int]@, '/');
            }
        } else {
            assert(before.push(pieces@[i as int]@) =~= seq![pieces@[i as int]@]);
        }
        extend_chars(&mut out, pieces[i].as_slice());
        i = i + 1;
    }
    assert(views(pieces@).take(i as int) =~= views(pieces@));
    out
}

pub fn has_drive_prefix(value: &[char]) -> (r: bool)
    ensures
        r == drive_prefixed(value@),
{
    value.len() >= 3 && is_ascii_alphabetic(value[0]) && value[1] == ':' && value[2] == '/'
}

fn is_drive_shaped(value: &[char]) -> (r: bool)
    ensures
        r == drive_shaped(value@),
{
    value.len() >= 3 && is_ascii_alphabetic(value[0]) && value[1] == ':' && (value[2] == '/'
        || value[2] == '\\')
}

/// The drive letter and colon at the start of `value`, given `lowered`, the
/// lowercased form of `value`.
pub fn drive_prefix_of(value: &[char], lowered: &[char]) -> (r: Option<Vec<char>>)
    requires
        drive_prefix_defined(value@, lowered@),
    ensures
        match r {
            Some(p) => drive_prefix_spec(value@, lowered@) == Some(p@),
            None => drive_prefix_spec(value@, lowered@) is None,
        },
{
    if has_drive_prefix(value) || has_drive_prefix(lowered) || is_drive_shaped(value) {
        Some(slice_chars(value, 0, 2))
    } else {
        None
    }
}

/// Drops a leading drive letter and colon from an already lowercased text.
pub fn strip_drive_letter(lowered: &[char]) -> (r: Vec<char>)
    ensures
        r@ == strip_drive(lowered@),
{
    if lowered.len() >= 3 && 'a' <= lowered[0] && lowered[0] <= 'z' && lowered[1] == ':'
        && lowered[2] == '/' {
        slice_chars(lowered, 2, lowered.len())
    } else {
        slice_chars(lowered, 0, lowered.len())
    }
}

/// The normal form of `value`: slashes forward, lowercase, no drive letter.
pub fn normalize(value: &str) -> (r: Vec<char>)
    ensures
        r@ == normal_form(value@),
{
    let forward = forward_slashes(chars_of(value).as_slice());
    let lowered = to_lowercase(string_of(forward.as_slice()).as_str());
    strip_drive_letter(chars_of(lowered.as_str()).as_slice())
}

/// `original` resolved against the working directory `cwd`.
pub fn resolve(original: &str, cwd: &str) -> (r: Vec<char>)
    requires
        drive_prefix_defined(joined_path(original@, cwd@), lowercase(joined_path(original@, cwd@))),
    ensures
        r@ == resolved(original@, cwd@),
{
    let mut joined = chars_of(cwd);
    joined.push('/');
    extend_chars(&mut joined, chars_of(original).as_slice());
    assert(joined@ =~= joined_path(original@, cwd@));
    let lowered = chars_of(to_lowercase(string_of(joined.as_slice()).as_str()).as_str());
    let prefix = drive_prefix_of(joined.as_slice(), lowered.as_slice());
    let ghost prefixed = drive_shaped(joined@);
    let start: usize = match &prefix {
        Some(_) => 2,
        None => 0,
    };
    assert(prefix is Some <==> prefixed);
    let ghost rest = joined@.skip(start as int);
    assert(rest == if prefixed { joined@.skip(2) } else { joined@ });
    let rooted = start < joined.len() && joined[start] == '/';
    // walk the segments of `rest`, applying each one to the kept stack
    let mut kept: Vec<Vec<char>> = Vec::new();
    let mut at: usize = start;
    let ghost mut done: Seq<Seq<char>> = Seq::empty();
    let dot = chars_of(".");
    let dotdot = chars_of("..");
    assert(joined@.skip(start as int) =~= rest);
    loop
        invariant_except_break
            done + split_on(joined@.skip(at as int), '/') == split_on(rest, '/'),
        invariant
            start <= at <= joined@.len(),
            rest == joined@.skip(start as int),
            views(kept@) == fold_segments(done),
            dot@ == "."@,
            dotdot@ == ".."@,
        ensures
            done == split_on(rest, '/'),
        decreases joined@.len() - at,
    {
        let k = char_end(joined.as_slice(), at, '/');
        proof {
            lemma_seg_end_bounds(joined@.skip(at as int), '/');
            assert forall|j: int| at <= j < k implies joined@[j] != '/' by {
                assert(joined@[j] == joined@.skip(at as int)[j - at]);
            }
            if k < joined@.len() {
                assert(joined@[k as int] == joined@.skip(at as int)[k - at]);
            }
            lemma_split_step(joined@, at as int, k as int);
        }
        let piece = slice_chars(joined.as_slice(), at, k);
        let ghost kept_before = kept@;
        proof {
            assert((done.push(piece@)).drop_last() =~= done);
        }
        if piece.len() == 0 || same_chars(piece.as_slice(), dot.as_slice()) {
        } else if same_chars(piece.as_slice(), dotdot.as_slice()) {
            if kept.len() > 0 {
                proof {
                    lemma_views_drop_last(kept@);
                }
                kept.pop();
                assert(kept@ =~= kept_before.drop_last());
            }
        } else {
            proof {
                lemma_views_push(kept@, piece);
            }
            kept.push(piece);
        }
        proof {
            done = done.push(piece@);
        }
        if k == joined.len() {
            assert(done =~= split_on(rest, '/'));
            break;
        }
        assert(done + split_on(joined@.skip(k + 1), '/') =~= split_on(rest, '/'));
        at = k + 1;
    }
    let body = join_segments(&kept);
    match prefix {
        Some(p) => {
            let mut out = p;
            out.push('/');
            extend_chars(&mut out, body.as_slice());
            out
        },
        None => {
            if rooted {
                let mut out: Vec<char> = Vec::new();
                out.push('/');
                extend_chars(&mut out, body.as_slice());
                out
            } else {
                body
            }
        },
    }
}


proof fn lemma_first_unique(s: Seq<char>, needle: Seq<char>, a: int, b: int)
    requires
        first_occurrence(s, needle, a),
        first_occurrence(s, needle, b),
    ensures
        a == b,
{
    if a < b {
        assert(!occurs_at(s, needle, a));
    } else if b < a {
        assert(!occurs_at(s, needle, b));
    }
}

/// Scanning for `/applications/`, some occurrence names a `.app` bundle with
/// something inside it.
pub fn has_app_package(normal_path: &[char]) -> (r: bool)
    ensures
        r == app_package_in(normal_path@),
{
    let marker = chars_of("/applications/");
    let app = chars_of(".app");
    proof {
        reveal_strlit("/applications/");
        assert(normal_path@.skip(0) =~= normal_path@);
    }
    let ghost s = normal_path@;
    let ghost m = marker@;
    let mut start: usize = 0;
    loop
        invariant
            start <= s.len(),
            s == normal_path@,
            m == marker@,
            m == "/applications/"@,
            m.len() == 14,
            app@ == ".app"@,
            app_package_in(s) == app_package_from(s.skip(start as int), m),
        decreases s.len() - start,
    {
        let ghost rest = s.skip(start as int);
        match find_from(normal_path, start, marker.as_slice()) {
            None => {
                proof {
                    if exists|i: int| first_occurrence(rest, m, i) {
                        let i = choose|i: int| first_occurrence(rest, m, i);
                        lemma_skip_occurs(s, m, start as int, i);
                    }
                }
                return false;
            },
            Some(i) => {
                let ghost rel_i = i - start;
                proof {
                    lemma_skip_occurs(s, m, start as int, rel_i);
                    assert forall|j: int| 0 <= j < rel_i implies !occurs_at(rest, m, j) by {
                        lemma_skip_occurs(s, m, start as int, j);
                    }
                    assert(first_occurrence(rest, m, rel_i));
                    let c = choose|c: int| first_occurrence(rest, m, c);
                    lemma_first_unique(rest, m, c, rel_i);
                }
                assert(normal_path@.len() == normal_path.len());
                let a = i + marker.len();
                let k = char_end(normal_path, a, '/');
                let seg = slice_chars(normal_path, a, k);
                let ghost after = rest.skip(rel_i + m.len());
                proof {
                    assert(after =~= s.skip(a as int));
                    assert(after.take(k - a) =~= seg@);
                }
                if k > a && has_suffix(seg.as_slice(), app.as_slice()) && k < normal_path.len()
                    && k + 1 < normal_path.len() {
                    return true;
                }
                start = a;
            },
        }
    }
}

/// Some slash-separated segment starts with a dot and is more than a lone dot.
pub fn has_hidden_segment(normal_original: &[char]) -> (r: bool)
    ensures
        r == hidden_segment_in(normal_original@),
{
    let segs = split_segments(normal_original);
    let dot = chars_of(".");
    let ghost pieces = split_on(normal_original@, '/');
    let mut i: usize = 0;
    while i < segs.len()
        invariant
            i <= segs@.len(),
            views(segs@) == pieces,
            pieces == split_on(normal_original@, '/'),
            dot@ == "."@,
            forall|k: int|
                0 <= k < i ==> !(pieces[k].len() > 0 && pieces[k][0] == '.' && pieces[k] != "."@),
        decreases segs@.len() - i,
    {
        let seg = &segs[i];
        assert(seg@ == pieces[i as int]);
        if seg.len() > 0 && seg[0] == '.' && !same_chars(seg.as_slice(), dot.as_slice()) {
            assert(pieces[i as int].len() > 0);
            return true;
        }
        i = i + 1;
    }
    false
}

fn segments_include(segs: &Vec<Vec<char>>, target: &[char]) -> (r: bool)
    ensures
        r == views(segs@).contains(target@),
{
    let mut i: usize = 0;
    while i < segs.len()
        invariant
            i <= segs@.len(),
            forall|k: int| 0 <= k < i ==> views(segs@)[k] != target@,
        decreases segs@.len() - i,
    {
        if same_chars(segs[i].as_slice(), target) {
            assert(views(segs@)[i as int] == target@);
            return true;
        }
        i = i + 1;
    }
    false
}

/// Some segment is `.cache`, `.npm` or `.pnpm`.
pub fn has_cache_segment(normal_path: &[char]) -> (r: bool)
    ensures
        r == cache_segment_in(normal_path@),
{
    let segs = split_segments(normal_path);
    segments_include(&segs, chars_of(".cache").as_slice()) || segments_include(
        &segs,
        chars_of(".npm").as_slice(),
    ) || segments_include(&segs, chars_of(".pnpm").as_slice())
}

pub fn has_program_files(normal_path: &[char]) -> (r: bool)
    ensures
        r == program_files_in(normal_path@),
{
    has_substring(normal_path, chars_of("program files/").as_slice()) || has_substring(
        normal_path,
        chars_of("program files (x86)/").as_slice(),
    )
}

pub open spec fn nested_text_of(v: Option<Option<&str>>) -> Option<Option<Seq<char>>> {
    match v {
        Some(inner) => Some(text_of(inner)),
        None => None,
    }
}

/// The home-directory rules for a normalized path and normalized home.
pub fn home_reason(normal_path: &[char], normal_home: &[char]) -> (r: Option<Option<&'static str>>)
    ensures
        nested_text_of(r) == home_verdict(normal_path@, normal_home@),
{
    let mut home_dir = slice_chars(normal_home, 0, normal_home.len());
    home_dir.push('/');
    assert(normal_home@.subrange(0, normal_home@.len() as int) =~= normal_home@);
    assert(home_dir@ =~= normal_home@ + seq!['/']);
    let in_home = same_chars(normal_path, normal_home) || has_prefix(
        normal_path,
        home_dir.as_slice(),
    );
    if !in_home {
        return None;
    }
    let tail = slice_chars(normal_path, normal_home.len(), normal_path.len());
    let rel = if tail.len() > 0 && tail[0] == '/' {
        slice_chars(tail.as_slice(), 1, tail.len())
    } else {
        tail
    };
    proof {
        let t = normal_path@.skip(normal_home@.len() as int);
        assert(tail@ =~= t);
        if t.len() > 0 && t[0] == '/' {
            assert(rel@ =~= t.drop_first());
        }
    }
    let relative: &[char] = rel.as_slice();
    if same_chars(relative, chars_of(".config").as_slice()) || has_prefix(relative, chars_of(".config/").as_slice()) {
        return Some(Some("Contains user configuration data (~/.config)"));
    }
    if same_chars(relative, chars_of(".local/share").as_slice()) || has_prefix(
        relative,
        chars_of(".local/share/").as_slice(),
    ) {
        return Some(Some("User data folder (~/.local/share)"));
    }
    if same_chars(relative, chars_of(".cache").as_slice()) || has_prefix(relative, chars_of(".cache/").as_slice()) {
        return Some(Some("System-wide cache directory (~/.cache)"));
    }
    if same_chars(relative, chars_of(".npm").as_slice()) || has_prefix(relative, chars_of(".npm/").as_slice())
        || same_chars(relative, chars_of(".pnpm").as_slice()) || has_prefix(
        relative,
        chars_of(".pnpm/").as_slice(),
    ) {
        return Some(None);
    }
    let e = char_end(relative, 0, '/');
    let top = slice_chars(relative, 0, e);
    proof {
        assert(rel@.skip(0) =~= rel@);
        assert(top@ =~= rel@.take(seg_end(rel@, '/') as int));
    }
    if top.len() > 0 && top[0] == '.' && !same_chars(top.as_slice(), chars_of(".").as_slice())
        && !same_chars(top.as_slice(), chars_of("..").as_slice()) {
        return Some(Some("Contains unsafe hidden folder"));
    }
    None
}

fn decide(
    normal_path: &[char],
    normal_original: &[char],
    normal_home: Option<&[char]>,
    is_unc: bool,
) -> (r: Option<&'static str>)
    ensures
        text_of(r) == verdict(
            normal_path@,
            normal_original@,
            match normal_home {
                Some(h) => Some(h@),
                None => None,
            },
            is_unc,
        ),
{
    let from_home = match normal_home {
        Some(h) => home_reason(normal_path, h),
        None => None,
    };
    match from_home {
        Some(v) => {
            return v;
        },
        None => {},
    }
    if has_app_package(normal_path) {
        return Some("Inside macOS .app package");
    }
    if is_unc && has_hidden_segment(normal_original) {
        return Some("Hidden path in network share");
    }
    if has_substring(normal_path, chars_of("/appdata/roaming").as_slice()) {
        return Some("Inside Windows AppData Roaming folder");
    }
    if has_substring(normal_path, chars_of("/appdata/local").as_slice()) {
        if has_cache_segment(normal_path) {
            return None;
        }
        return Some("Inside Windows AppData Local folder");
    }
    if has_program_files(normal_path) {
        return Some("Inside Program Files folder");
    }
    None
}

/// The risk decision on texts already in normal form: `normal_path` is the
/// absolute path, `normal_original` the path as given, `normal_home` the home
/// directory (absent when unknown or empty), `is_unc` whether the path as
/// given starts with two slashes.
pub fn assess(
    normal_path: &str,
    normal_original: &str,
    normal_home: Option<&str>,
    is_unc: bool,
) -> (r: Option<&'static str>)
    ensures
        text_of(r) == verdict(normal_path@, normal_original@, text_of(normal_home), is_unc),
{
    let p = chars_of(normal_path);
    let o = chars_of(normal_original);
    match normal_home {
        Some(h) => {
            let hc = chars_of(h);
            decide(p.as_slice(), o.as_slice(), Some(hc.as_slice()), is_unc)
        },
        None => decide(p.as_slice(), o.as_slice(), None, is_unc),
    }
}

/// Why deleting `original` is risky, if it is: `home` is the user's home
/// directory and `cwd` the working directory against which a relative path
/// is resolved.
pub fn sensitive(original: &str, home: Option<&str>, cwd: Option<&str>) -> (r: Option<&'static str>)
    requires
        assessable(original@, text_of(cwd)),
    ensures
        text_of(r) == risk_of(original@, text_of(home), text_of(cwd)),
{
    let orig = chars_of(original);
    let is_unc = orig.len() >= 2 && orig[0] == '/' && orig[1] == '/';
    let is_absolute = (orig.len() >= 1 && orig[0] == '/') || has_drive_prefix(orig.as_slice());
    let normal_path = match cwd {
        Some(c) => {
            if !is_unc && !is_absolute {
                let absolute = resolve(original, c);
                normalize(string_of(absolute.as_slice()).as_str())
            } else {
                normalize(original)
            }
        },
        None => normalize(original),
    };
    let normal_original = normalize(original);
    match home {
        Some(h) => {
            if h.is_empty() {
                decide(normal_path.as_slice(), normal_original.as_slice(), None, is_unc)
            } else {
                let normal_home = normalize(h);
                decide(
                    normal_path.as_slice(),
                    normal_original.as_slice(),
                    Some(normal_home.as_slice()),
                    is_unc,
                )
            }
        },
        None => decide(normal_path.as_slice(), normal_original.as_slice(), None, is_unc),
    }
}

/// `sensitive` where it is defined, `None` where `original` is resolved
/// against a working directory whose joined text shows a drive prefix only
/// once lowercased.
pub fn sensitive_checked(original: &str, home: Option<&str>, cwd: Option<&str>) -> (r: Option<
    Option<&'static str>,
>)
    ensures
        match r {
            Some(v) => assessable(original@, text_of(cwd)) && text_of(v) == risk_of(
                original@,
                text_of(home),
                text_of(cwd),
            ),
            None => !assessable(original@, text_of(cwd)),
        },
{
    let orig = chars_of(original);
    let is_unc = orig.len() >= 2 && orig[0] == '/' && orig[1] == '/';
    let is_absolute = (orig.len() >= 1 && orig[0] == '/') || has_drive_prefix(orig.as_slice());
    match cwd {
        Some(c) => {
            if !is_unc && !is_absolute {
                let mut joined = chars_of(c);
                joined.push('/');
                extend_chars(&mut joined, orig.as_slice());
                assert(joined@ =~= joined_path(original@, c@));
                let lowered = chars_of(to_lowercase(string_of(joined.as_slice()).as_str()).as_str());
                if has_drive_prefix(lowered.as_slice()) && !is_drive_shaped(joined.as_slice()) {
                    return None;
                }
            }
        },
        None => {},
    }
    Some(sensitive(original, home, cwd))
}

/// Whether the table marks `original` as a path the system may use: where
/// `sensitive` gives a reason, and, to be careful, where it cannot judge
/// the path at all.
pub fn row_flagged(original: &str, home: Option<&str>, cwd: Option<&str>) -> (r: bool)
    ensures
        r == (!assessable(original@, text_of(cwd)) || risk_of(original@, text_of(home), text_of(cwd))
            is Some),
{
    match sensitive_checked(original, home, cwd) {
        Some(reason) => reason.is_some(),
        None => true,
    }
}

proof fn lemma_slashes_forward_idempotent(s: Seq<char>)
    ensures
        slashes_forward(slashes_forward(s)) == slashes_forward(s),
        slashes_forward(s).len() == s.len(),
{
    assert(slashes_forward(slashes_forward(s)) =~= slashes_forward(s));
}

/// Backslashes and forward slashes are treated alike: with no working
/// directory, a path and its home give the same verdict as their
/// forward-slash forms, as long as both are, or both are not, network paths.
pub proof fn lemma_backslashes_alike(original: Seq<char>, home: Option<Seq<char>>)
    requires
        is_unc_path(original) == is_unc_path(slashes_forward(original)),
    ensures
        risk_of(original, home, None) == risk_of(
            slashes_forward(original),
            match home {
                Some(h) => Some(slashes_forward(h)),
                None => None,
            },
            None,
        ),
{
    lemma_slashes_forward_idempotent(original);
    if let Some(h) = home {
        lemma_slashes_forward_idempotent(h);
    }
}

proof fn lemma_split_pieces_have_no_separator(s: Seq<char>, sep: char)
    ensures
        forall|k: int, j: int|
            0 <= k < split_on(s, sep).len() && 0 <= j < split_on(s, sep)[k].len() ==> #[trigger] split_on(
                s,
                sep,
            )[k][j] != sep,
    decreases s.len(),
{
    lemma_seg_end_bounds(s, sep);
    let k = seg_end(s, sep) as int;
    if k < s.len() {
        lemma_split_pieces_have_no_separator(s.skip(k + 1), sep);
        let rest = split_on(s.skip(k + 1), sep);
        assert forall|a: int, j: int|
            0 <= a < split_on(s, sep).len() && 0 <= j < split_on(s, sep)[a].len() implies #[trigger] split_on(
            s,
            sep,
        )[a][j] != sep by {
            if a > 0 {
                assert(split_on(s, sep)[a] == rest[a - 1]);
            }
        }
    }
}

/// The kept segments are non-empty segments of the input.
proof fn lemma_fold_keeps_pieces(segs: Seq<Seq<char>>)
    ensures
        forall|k: int|
            0 <= k < fold_segments(segs).len() ==> (#[trigger] fold_segments(segs)[k]).len() > 0
                && segs.contains(fold_segments(segs)[k]),
    decreases segs.len(),
{
    if segs.len() > 0 {
        lemma_fold_keeps_pieces(segs.drop_last());
        let kept = fold_segments(segs.drop_last());
        assert forall|k: int| 0 <= k < fold_segments(segs).len() implies (#[trigger] fold_segments(
            segs,
        )[k]).len() > 0 && segs.contains(fold_segments(segs)[k]) by {
            let x = fold_segments(segs)[k];
            if k < kept.len() && x == kept[k] {
                let i = choose|i: int| 0 <= i < segs.drop_last().len() && segs.drop_last()[i] == x;
                assert(segs[i] == x);
            } else {
                assert(x == segs.last());
                assert(segs[segs.len() - 1] == x);
            }
        }
    }
}

/// A join whose first piece is non-empty starts with that piece's first character.
proof fn lemma_join_first(pieces: Seq<Seq<char>>)
    requires
        pieces.len() > 0,
        pieces[0].len() > 0,
    ensures
        join_with(pieces, '/').len() > 0,
        join_with(pieces, '/')[0] == pieces[0][0],
    decreases pieces.len(),
{
    if pieces.len() > 1 {
        lemma_join_first(pieces.drop_last());
    }
}

proof fn lemma_resolved_not_unc(original: Seq<char>, cwd: Seq<char>)
    ensures
        !is_unc_path(resolved(original, cwd)),
{
    let joined = joined_path(original, cwd);
    let prefixed = drive_shaped(joined);
    let rest = if prefixed { joined.skip(2) } else { joined };
    let segs = split_on(rest, '/');
    let kept = fold_segments(segs);
    let body = join_with(kept, '/');
    if kept.len() > 0 {
        lemma_fold_keeps_pieces(segs);
        lemma_split_pieces_have_no_separator(rest, '/');
        assert(kept[0].len() > 0);
        let i = choose|i: int| 0 <= i < segs.len() && segs[i] == kept[0];
        assert(segs[i][0] != '/');
        lemma_join_first(kept);
    } else {
        assert(body.len() == 0);
    }
}

/// A relative path is judged as the absolute path it resolves to.
pub proof fn lemma_relative_judged_as_resolved(
    original: Seq<char>,
    home: Option<Seq<char>>,
    cwd: Seq<char>,
)
    requires
        needs_resolving(original, Some(cwd)),
    ensures
        risk_of(original, home, Some(cwd)) == risk_of(resolved(original, cwd), home, None),
{
    lemma_resolved_not_unc(original, cwd);
}

/// A segment a resolved path keeps: a plain name, neither empty nor `.`
/// nor `..`, with no slash in it.
pub open spec fn kept_segment(seg: Seq<char>) -> bool {
    &&& seg.len() > 0
    &&& seg != "."@
    &&& seg != ".."@
    &&& forall|j: int| 0 <= j < seg.len() ==> seg[j] != '/'
}

/// Splitting at a slash splits the two sides apart.
proof fn lemma_split_concat(x: Seq<char>, y: Seq<char>)
    ensures
        split_on(x + seq!['/'] + y, '/') == split_on(x, '/') + split_on(y, '/'),
    decreases x.len(),
{
    let s = x + seq!['/'] + y;
    lemma_seg_end_bounds(x, '/');
    let k = seg_end(x, '/') as int;
    if k < x.len() {
        lemma_seg_end(s, '/', k);
        assert(s.take(k) =~= x.take(k));
        assert(s.skip(k + 1) =~= x.skip(k + 1) + seq!['/'] + y);
        lemma_split_concat(x.skip(k + 1), y);
        assert(split_on(s, '/') =~= split_on(x, '/') + split_on(y, '/'));
    } else {
        lemma_seg_end(s, '/', x.len() as int);
        assert(s.take(x.len() as int) =~= x);
        assert(s.skip(x.len() + 1int) =~= y);
        assert(split_on(s, '/') =~= split_on(x, '/') + split_on(y, '/'));
    }
}

/// Splitting slash-free pieces joined with slashes gives the pieces back.
proof fn lemma_split_join(pieces: Seq<Seq<char>>)
    requires
        pieces.len() > 0,
        forall|i: int, j: int| 0 <= i < pieces.len() && 0 <= j < pieces[i].len() ==> #[trigger] pieces[i][j] != '/',
    ensures
        split_on(join_with(pieces, '/'), '/') == pieces,
    decreases pieces.len(),
{
    if pieces.len() == 1 {
        lemma_seg_end(pieces[0], '/', pieces[0].len() as int);
        assert(split_on(pieces[0], '/') =~= pieces);
    } else {
        let init = pieces.drop_last();
        lemma_split_join(init);
        lemma_seg_end(pieces.last(), '/', pieces.last().len() as int);
        lemma_split_concat(join_with(init, '/'), pieces.last());
        assert(split_on(join_with(pieces, '/'), '/') =~= pieces);
    }
}

/// The segments that applying `.` and `..` keeps are plain names taken from
/// the input.
proof fn lemma_fold_kept(segs: Seq<Seq<char>>)
    ensures
        forall|k: int|
            0 <= k < fold_segments(segs).len() ==> {
                let x = #[trigger] fold_segments(segs)[k];
                x.len() > 0 && x != "."@ && x != ".."@ && segs.contains(x)
            },
    decreases segs.len(),
{
    if segs.len() > 0 {
        lemma_fold_kept(segs.drop_last());
        let kept = fold_segments(segs.drop_last());
        assert forall|k: int| 0 <= k < fold_segments(segs).len() implies {
            let x = #[trigger] fold_segments(segs)[k];
            x.len() > 0 && x != "."@ && x != ".."@ && segs.contains(x)
        } by {
            let x = fold_segments(segs)[k];
            if k < kept.len() && x == kept[k] {
                let i = choose|i: int| 0 <= i < segs.drop_last().len() && segs.drop_last()[i] == x;
                assert(segs[i] == x);
            } else {
                assert(x == segs.last());
                assert(segs[segs.len() - 1] == x);
            }
        }
    }
}

/// Empty segments are dropped: nothing, or one empty segment, keeps nothing.
proof fn lemma_fold_empties()
    ensures
        fold_segments(Seq::<Seq<char>>::empty()) == Seq::<Seq<char>>::empty(),
        fold_segments(seq![Seq::<char>::empty()]) == Seq::<Seq<char>>::empty(),
{
    let e = Seq::<char>::empty();
    assert(seq![e].drop_last() =~= Seq::<Seq<char>>::empty());
    assert(seq![e].last() == e);
    assert(fold_segments(Seq::<Seq<char>>::empty()) =~= Seq::<Seq<char>>::empty());
}

/// Plain names are kept as they are, after a leading empty segment.
proof fn lemma_fold_after_empty(names: Seq<Seq<char>>)
    requires
        forall|i: int| 0 <= i < names.len() ==> kept_segment(#[trigger] names[i]),
    ensures
        fold_segments(seq![Seq::<char>::empty()] + names) == names,
    decreases names.len(),
{
    let e = Seq::<char>::empty();
    if names.len() == 0 {
        lemma_fold_empties();
        assert(seq![e] + names =~= seq![e]);
    } else {
        let init = names.drop_last();
        lemma_fold_after_empty(init);
        assert((seq![e] + names).drop_last() =~= seq![e] + init);
        assert((seq![e] + names).last() == names.last());
        assert(kept_segment(names[names.len() - 1]));
        assert(init.push(names.last()) =~= names);
    }
}

/// A path resolved against a working directory that starts at the root is
/// in normal form: it starts with a slash, every segment after it is a
/// plain name (neither empty nor `.` nor `..`), and resolving `.` against
/// it gives it back unchanged.
pub proof fn lemma_resolved_is_normal(original: Seq<char>, cwd: Seq<char>)
    requires
        cwd.len() > 0,
        cwd[0] == '/',
    ensures
        resolved(original, cwd).len() > 0,
        resolved(original, cwd)[0] == '/',
        resolved(original, cwd) == seq!['/'] || forall|k: int|
            0 <= k < split_on(resolved(original, cwd).skip(1), '/').len() ==> kept_segment(
                #[trigger] split_on(resolved(original, cwd).skip(1), '/')[k],
            ),
        resolved("."@, resolved(original, cwd)) == resolved(original, cwd),
{
    reveal_strlit(".");
    let e = Seq::<char>::empty();
    let dot = "."@;
    let joined = joined_path(original, cwd);
    assert(joined[0] == '/');
    assert(!drive_shaped(joined));
    let segs = split_on(joined, '/');
    let kept = fold_segments(segs);
    let body = join_with(kept, '/');
    let r = resolved(original, cwd);
    assert(r == seq!['/'] + body);
    lemma_fold_kept(segs);
    lemma_split_pieces_have_no_separator(joined, '/');
    assert forall|k: int| 0 <= k < kept.len() implies kept_segment(#[trigger] kept[k]) by {
        let i = choose|i: int| 0 <= i < segs.len() && segs[i] == kept[k];
        assert forall|j: int| 0 <= j < kept[k].len() implies kept[k][j] != '/' by {
            assert(segs[i][j] != '/');
        }
    }
    assert(r.skip(1) =~= body);
    let joined2 = joined_path(dot, r);
    assert(joined2[0] == '/');
    assert(!drive_shaped(joined2));
    assert(joined2 =~= e + seq!['/'] + (body + seq!['/'] + dot));
    lemma_split_concat(e, body + seq!['/'] + dot);
    lemma_split_concat(body, dot);
    lemma_seg_end(e, '/', 0);
    lemma_seg_end(dot, '/', 1);
    assert(split_on(e, '/') =~= seq![e]);
    assert(split_on(dot, '/') =~= seq![dot]);
    let segs2 = split_on(joined2, '/');
    if kept.len() == 0 {
        assert(body =~= e);
        assert(r =~= seq!['/']);
        assert(segs2 =~= seq![e, e, dot]);
        lemma_fold_empties();
        assert(seq![e, e, dot].drop_last() =~= seq![e, e]);
        assert(seq![e, e].drop_last() =~= seq![e]);
        assert(seq![e, e].last() == e);
        assert(fold_segments(seq![e, e]) =~= Seq::<Seq<char>>::empty());
        assert(seq![e, e, dot].last() == dot);
        assert(fold_segments(segs2) =~= Seq::<Seq<char>>::empty());
        assert(join_with(fold_segments(segs2), '/') =~= e);
    } else {
        assert forall|i: int, j: int| 0 <= i < kept.len() && 0 <= j < kept[i].len() implies #[trigger] kept[i][j] != '/' by {
            assert(kept_segment(kept[i]));
        }
        lemma_split_join(kept);
        assert(segs2 =~= seq![e] + kept + seq![dot]);
        assert(segs2.drop_last() =~= seq![e] + kept);
        lemma_fold_after_empty(kept);
        assert(fold_segments(segs2) == kept);
    }
}

/// A path that starts at the root, or with a drive letter, a colon and a
/// forward slash, is absolute: its verdict does not depend on the working
/// directory, which is only used for relative paths.
pub proof fn lemma_absolute_ignores_cwd(original: Seq<char>, home: Option<Seq<char>>, cwd: Seq<char>)
    requires
        (original.len() >= 1 && original[0] == '/') || (original.len() >= 3 && is_ascii_alpha(
            original[0],
        ) && original[1] == ':' && original[2] == '/'),
    ensures
        assessable(original, Some(cwd)),
        risk_of(original, home, Some(cwd)) == risk_of(original, home, None),
{
}

/// The home rules: inside the home directory (in normal form), `.config`,
/// `.local/share` and `.cache`, and everything in them, are flagged with
/// their reasons; `.npm` and `.pnpm`, and everything in them, are cleared;
/// and whatever the other rules would say, they are not consulted.
pub proof fn lemma_home_rules(
    home: Seq<char>,
    tail: Seq<char>,
    normal_original: Seq<char>,
    is_unc: bool,
)
    requires
        tail.len() == 0 || tail[0] == '/',
    ensures
        verdict(home + seq!['/'] + ".config"@ + tail, normal_original, Some(home), is_unc) == Some(
            config_reason(),
        ),
        verdict(home + seq!['/'] + ".local/share"@ + tail, normal_original, Some(home), is_unc)
            == Some(data_reason()),
        verdict(home + seq!['/'] + ".cache"@ + tail, normal_original, Some(home), is_unc) == Some(
            cache_reason(),
        ),
        verdict(home + seq!['/'] + ".npm"@ + tail, normal_original, Some(home), is_unc) is None,
        verdict(home + seq!['/'] + ".pnpm"@ + tail, normal_original, Some(home), is_unc) is None,
{
    lemma_home_config(home, tail);
    lemma_home_local_share(home, tail);
    lemma_home_cache(home, tail);
    lemma_home_npm(home, tail);
    lemma_home_pnpm(home, tail);
}

proof fn lemma_home_config(home: Seq<char>, tail: Seq<char>)
    requires
        tail.len() == 0 || tail[0] == '/',
    ensures
        home_verdict(home + seq!['/'] + ".config"@ + tail, home) == Some(Some(config_reason())),
{
    reveal_strlit(".config");
    reveal_strlit(".config/");
    let rel = ".config"@ + tail;
    assert(home + seq!['/'] + ".config"@ + tail =~= home + seq!['/'] + rel);
    lemma_home_rel(home, rel);
    assert(".config/"@ =~= ".config"@ + seq!['/']);
    lemma_named_rel(".config"@, tail);
}

proof fn lemma_home_local_share(home: Seq<char>, tail: Seq<char>)
    requires
        tail.len() == 0 || tail[0] == '/',
    ensures
        home_verdict(home + seq!['/'] + ".local/share"@ + tail, home) == Some(Some(data_reason())),
{
    reveal_strlit(".config");
    reveal_strlit(".config/");
    reveal_strlit(".local/share");
    reveal_strlit(".local/share/");
    let rel = ".local/share"@ + tail;
    assert(home + seq!['/'] + ".local/share"@ + tail =~= home + seq!['/'] + rel);
    lemma_home_rel(home, rel);
    assert(".local/share/"@ =~= ".local/share"@ + seq!['/']);
    lemma_differs_at(rel, ".config"@, 1);
    lemma_differs_at(rel, ".config/"@, 1);
    lemma_named_rel(".local/share"@, tail);
}

proof fn lemma_home_cache(home: Seq<char>, tail: Seq<char>)
    requires
        tail.len() == 0 || tail[0] == '/',
    ensures
        home_verdict(home + seq!['/'] + ".cache"@ + tail, home) == Some(Some(cache_reason())),
{
    reveal_strlit(".config");
    reveal_strlit(".config/");
    reveal_strlit(".local/share");
    reveal_strlit(".local/share/");
    reveal_strlit(".cache");
    reveal_strlit(".cache/");
    let rel = ".cache"@ + tail;
    assert(home + seq!['/'] + ".cache"@ + tail =~= home + seq!['/'] + rel);
    lemma_home_rel(home, rel);
    assert(".cache/"@ =~= ".cache"@ + seq!['/']);
    lemma_differs_at(rel, ".config"@, 2);
    lemma_differs_at(rel, ".config/"@, 2);
    lemma_differs_at(rel, ".local/share"@, 1);
    lemma_differs_at(rel, ".local/share/"@, 1);
    lemma_named_rel(".cache"@, tail);
}

proof fn lemma_home_npm(home: Seq<char>, tail: Seq<char>)
    requires
        tail.len() == 0 || tail[0] == '/',
    ensures
        home_verdict(home + seq!['/'] + ".npm"@ + tail, home) == Some(None::<Seq<char>>),
{
    reveal_strlit(".config");
    reveal_strlit(".config/");
    reveal_strlit(".local/share");
    reveal_strlit(".local/share/");
    reveal_strlit(".cache");
    reveal_strlit(".cache/");
    reveal_strlit(".npm");
    reveal_strlit(".npm/");
    let rel = ".npm"@ + tail;
    assert(home + seq!['/'] + ".npm"@ + tail =~= home + seq!['/'] + rel);
    lemma_home_rel(home, rel);
    assert(".npm/"@ =~= ".npm"@ + seq!['/']);
    lemma_differs_at(rel, ".config"@, 1);
    lemma_differs_at(rel, ".config/"@, 1);
    lemma_differs_at(rel, ".local/share"@, 1);
    lemma_differs_at(rel, ".local/share/"@, 1);
    lemma_differs_at(rel, ".cache"@, 1);
    lemma_differs_at(rel, ".cache/"@, 1);
    lemma_named_rel(".npm"@, tail);
}

proof fn lemma_home_pnpm(home: Seq<char>, tail: Seq<char>)
    requires
        tail.len() == 0 || tail[0] == '/',
    ensures
        home_verdict(home + seq!['/'] + ".pnpm"@ + tail, home) == Some(None::<Seq<char>>),
{
    reveal_strlit(".config");
    reveal_strlit(".config/");
    reveal_strlit(".local/share");
    reveal_strlit(".local/share/");
    reveal_strlit(".cache");
    reveal_strlit(".cache/");
    reveal_strlit(".npm");
    reveal_strlit(".npm/");
    reveal_strlit(".pnpm");
    reveal_strlit(".pnpm/");
    let rel = ".pnpm"@ + tail;
    assert(home + seq!['/'] + ".pnpm"@ + tail =~= home + seq!['/'] + rel);
    lemma_home_rel(home, rel);
    assert(".pnpm/"@ =~= ".pnpm"@ + seq!['/']);
    lemma_differs_at(rel, ".config"@, 1);
    lemma_differs_at(rel, ".config/"@, 1);
    lemma_differs_at(rel, ".local/share"@, 1);
    lemma_differs_at(rel, ".local/share/"@, 1);
    lemma_differs_at(rel, ".cache"@, 1);
    lemma_differs_at(rel, ".cache/"@, 1);
    lemma_differs_at(rel, ".npm"@, 1);
    lemma_differs_at(rel, ".npm/"@, 1);
    lemma_named_rel(".pnpm"@, tail);
}

/// Texts that differ at some place within both neither are equal nor does
/// one start with the other.
proof fn lemma_differs_at(s: Seq<char>, p: Seq<char>, i: int)
    requires
        0 <= i < p.len(),
        i < s.len(),
        s[i] != p[i],
    ensures
        s != p,
        !starts_with(s, p),
{
    if starts_with(s, p) {
        assert(s.subrange(0, p.len() as int)[i] == s[i]);
    }
}

/// A path one slash below the home directory is inside it, and the home
/// rules see the part after that slash.
proof fn lemma_home_rel(home: Seq<char>, rel: Seq<char>)
    ensures
        ({
            let path = home + seq!['/'] + rel;
            let tail = path.skip(home.len() as int);
            &&& starts_with(path, home + seq!['/'])
            &&& tail.len() > 0 && tail[0] == '/'
            &&& tail.drop_first() == rel
        }),
{
    let path = home + seq!['/'] + rel;
    assert(path.take(home.len() + 1int) =~= home + seq!['/']);
    assert(path.skip(home.len() as int).drop_first() =~= rel);
}

/// `name + tail`, with `tail` empty or starting with a slash, is `name` or
/// starts with `name` and a slash.
proof fn lemma_named_rel(name: Seq<char>, tail: Seq<char>)
    requires
        tail.len() == 0 || tail[0] == '/',
    ensures
        name + tail == name || starts_with(name + tail, name + seq!['/']),
{
    if tail.len() == 0 {
        assert(name + tail =~= name);
    } else {
        assert((name + tail).take(name.len() + 1int) =~= name + seq!['/']);
    }
}

/// The home directory only matters for paths inside it: a path that is
/// neither the home directory nor below it gets the same verdict as with no
/// home directory known.
pub proof fn lemma_home_only_inside(
    normal_path: Seq<char>,
    normal_original: Seq<char>,
    normal_home: Seq<char>,
    is_unc: bool,
)
    requires
        normal_path != normal_home,
        !starts_with(normal_path, normal_home + seq!['/']),
    ensures
        verdict(normal_path, normal_original, Some(normal_home), is_unc) == verdict(
            normal_path,
            normal_original,
            None,
            is_unc,
        ),
{
}

/// The path as given only matters on a network share: for a path that
/// is not one, the verdict depends on the resolved path and the home
/// directory alone.
pub proof fn lemma_original_only_for_shares(
    normal_path: Seq<char>,
    first: Seq<char>,
    second: Seq<char>,
    normal_home: Option<Seq<char>>,
)
    ensures
        verdict(normal_path, first, normal_home, false) == verdict(normal_path, second, normal_home, false),
{
}

} // verus!
