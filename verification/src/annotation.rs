//! Semantic art annotation: convention-based asset path parsing.
//!
//! Asset file paths are parsed against a naming convention into an
//! [`AssetAnnotation`] that says what a sprite or tile represents:
//!
//! ```text
//! assets/sprites/{entity_type}/{state}_{direction}.png
//! assets/tiles/{tile_type}/{variant}.png
//! assets/ui/{element_name}.png
//! ```
use crate::strings::{append_str, chars_eq, chars_of, joined, string_from_chars};
use vstd::prelude::*;

verus! {

/// Semantic annotation derived from an asset file path.
#[derive(Debug, Clone, PartialEq, Eq)]
pub struct AssetAnnotation {
    /// The file path as given (e.g. `"assets/sprites/player/idle_right.png"`).
    pub asset_path: String,
    /// High-level type derived from the directory structure, such as
    /// `"character_sprite"`, `"tile"` or `"ui_element"`.
    pub semantic_type: String,
    /// Dot-separated description of what the asset depicts, such as
    /// `"player.idle.facing_right"`.
    pub represents: String,
    /// Searchable tags extracted from the path components.
    pub tags: Vec<String>,
    /// The entity type this asset belongs to (from the directory name).
    pub entity_type: String,
}

/// The character views of a sequence of character vectors.
pub open spec fn views(vs: Seq<Vec<char>>) -> Seq<Seq<char>> {
    vs.map_values(|v: Vec<char>| v@)
}

/// The character views of a sequence of strings.
pub open spec fn string_views(vs: Seq<String>) -> Seq<Seq<char>> {
    vs.map_values(|v: String| v@)
}

/// `s` with every backslash replaced by a forward slash.
pub open spec fn normalize(s: Seq<char>) -> Seq<char> {
    s.map_values(|c: char| if c == '\\' { '/' } else { c })
}

/// `s` split at every occurrence of `sep`; `k` separators give `k + 1`
/// parts, empty ones included.
pub open spec fn split_on(s: Seq<char>, sep: char) -> Seq<Seq<char>>
    decreases s.len(),
{
    if s.len() == 0 {
        seq![Seq::empty()]
    } else {
        let parts = split_on(s.drop_last(), sep);
        if s.last() == sep {
            parts.push(Seq::empty())
        } else {
            parts.update(parts.len() - 1, parts.last().push(s.last()))
        }
    }
}

/// The part of `s` before its last `'.'`, if it has one.
pub open spec fn before_last_dot(s: Seq<char>) -> Option<Seq<char>>
    decreases s.len(),
{
    if s.len() == 0 {
        None
    } else if s.last() == '.' {
        Some(s.drop_last())
    } else {
        before_last_dot(s.drop_last())
    }
}

/// A file name without its extension.
pub open spec fn stem(s: Seq<char>) -> Seq<char> {
    match before_last_dot(s) {
        Some(t) => t,
        None => s,
    }
}

/// Whether `c` is an ASCII decimal digit.
pub open spec fn is_digit(c: char) -> bool {
    '0' <= c <= '9'
}

/// `s` without its trailing ASCII digits.
pub open spec fn trim_digits(s: Seq<char>) -> Seq<char>
    decreases s.len(),
{
    if s.len() > 0 && is_digit(s.last()) {
        trim_digits(s.drop_last())
    } else {
        s
    }
}

/// Whether `s` is one of the direction keywords.
pub open spec fn is_direction(s: Seq<char>) -> bool {
    ||| s == "left"@
    ||| s == "right"@
    ||| s == "up"@
    ||| s == "down"@
    ||| s == "north"@
    ||| s == "south"@
    ||| s == "east"@
    ||| s == "west"@
}

/// The state parts and the direction of the underscore-separated parts of a
/// file name: a last part that is a direction keyword (possibly followed by
/// digits), or a purely numeric last part after a direction keyword, is the
/// direction.
pub open spec fn state_and_direction(fp: Seq<Seq<char>>) -> (Seq<Seq<char>>, Option<Seq<char>>) {
    if fp.len() > 1 {
        let last_clean = trim_digits(fp.last());
        if is_direction(last_clean) {
            (fp.drop_last(), Some(last_clean))
        } else if last_clean.len() == 0 && fp.len() > 2 && is_direction(fp[fp.len() - 2]) {
            (fp.take(fp.len() - 2), Some(fp[fp.len() - 2]))
        } else {
            (fp, None)
        }
    } else {
        (fp, None)
    }
}

/// `tags` with `t` appended unless already present.
pub open spec fn push_new(tags: Seq<Seq<char>>, t: Seq<char>) -> Seq<Seq<char>> {
    if tags.contains(t) {
        tags
    } else {
        tags.push(t)
    }
}

/// `tags` with each of `ts` appended in order, skipping those present.
pub open spec fn push_all_new(tags: Seq<Seq<char>>, ts: Seq<Seq<char>>) -> Seq<Seq<char>>
    decreases ts.len(),
{
    if ts.len() == 0 {
        tags
    } else {
        push_new(push_all_new(tags, ts.drop_last()), ts.last())
    }
}

/// The parts of a path after the `"assets/"` prefix, once backslashes are
/// normalised, when the path has that prefix and at least two parts.
pub open spec fn asset_parts(path: Seq<char>) -> Option<Seq<Seq<char>>> {
    let n = normalize(path);
    let prefix = "assets/"@;
    if n.len() >= prefix.len() && n.take(prefix.len() as int) == prefix {
        let parts = split_on(n.skip(prefix.len() as int), '/');
        if parts.len() >= 2 {
            Some(parts)
        } else {
            None
        }
    } else {
        None
    }
}

/// The annotation of an asset path, as `(semantic_type, represents, tags,
/// entity_type)`, or `None` when the path does not follow the convention.
pub open spec fn annotate(path: Seq<char>) -> Option<(Seq<char>, Seq<char>, Seq<Seq<char>>, Seq<char>)> {
    match asset_parts(path) {
        None => None,
        Some(parts) => {
            let category = parts[0];
            let filename = stem(parts.last());
            if filename.len() == 0 {
                None
            } else {
                let semantic_type = if category == "sprites"@ {
                    "character_sprite"@
                } else if category == "tiles"@ {
                    "tile"@
                } else if category == "ui"@ {
                    "ui_element"@
                } else {
                    category
                };
                let entity_type = if parts.len() >= 3 {
                    parts[1]
                } else {
                    filename
                };
                let fp = split_on(filename, '_');
                let (state_parts, direction) = state_and_direction(fp);
                let state = joined(state_parts, "_"@);
                let represents = if category == "sprites"@ {
                    match direction {
                        Some(d) => entity_type + "."@ + state + ".facing_"@ + d,
                        None => entity_type + "."@ + state,
                    }
                } else if category == "tiles"@ {
                    "tile."@ + entity_type + "."@ + state
                } else if category == "ui"@ {
                    "ui."@ + state
                } else {
                    category + "."@ + entity_type + "."@ + state
                };
                let tags0 = push_all_new(seq![entity_type], fp);
                let tags1 = match direction {
                    Some(d) => push_new(tags0, d),
                    None => tags0,
                };
                let tags = push_new(tags1, category);
                Some((semantic_type, represents, tags, entity_type))
            }
        },
    }
}

/// `s` with backslashes turned into forward slashes.
fn normalize_chars(s: &Vec<char>) -> (r: Vec<char>)
    ensures
        r@ == normalize(s@),
{
    let mut r: Vec<char> = Vec::new();
    let mut i: usize = 0;
    while i < s.len()
        invariant
            i <= s@.len(),
            r@ == normalize(s@.take(i as int)),
        decreases s@.len() - i,
    {
        let c = s[i];
        r.push(if c == '\\' { '/' } else { c });
        proof {
            assert(normalize(s@.take(i as int + 1)) =~= normalize(s@.take(i as int)).push(if c == '\\' { '/' } else { c }));
        }
        i = i + 1;
    }
    proof {
        assert(s@.take(i as int) =~= s@);
    }
    r
}

/// The characters of `s` from position `from` on.
fn skip_chars(s: &Vec<char>, from: usize) -> (r: Vec<char>)
    requires
        from <= s@.len(),
    ensures
        r@ == s@.skip(from as int),
{
    let mut r: Vec<char> = Vec::new();
    let mut i: usize = from;
    while i < s.len()
        invariant
            from <= i <= s@.len(),
            r@ == s@.subrange(from as int, i as int),
        decreases s@.len() - i,
    {
        r.push(s[i]);
        proof {
            assert(s@.subrange(from as int, i as int + 1) =~= s@.subrange(from as int, i as int).push(s@[i as int]));
        }
        i = i + 1;
    }
    proof {
        assert(s@.subrange(from as int, i as int) =~= s@.skip(from as int));
    }
    r
}

/// Whether `s` starts with `p`.
fn starts_with_chars(s: &Vec<char>, p: &Vec<char>) -> (r: bool)
    ensures
        r == (s@.len() >= p@.len() && s@.take(p@.len() as int) == p@),
{
    if s.len() < p.len() {
        return false;
    }
    let mut i: usize = 0;
    while i < p.len()
        invariant
            i <= p@.len(),
            p@.len() <= s@.len(),
            forall|k: int| 0 <= k < i ==> s@[k] == p@[k],
        decreases p@.len() - i,
    {
        if s[i] != p[i] {
            proof {
                assert(s@.take(p@.len() as int)[i as int] != p@[i as int]);
            }
            return false;
        }
        i = i + 1;
    }
    proof {
        assert(s@.take(p@.len() as int) =~= p@);
    }
    true
}

/// `s` split at every `sep`.
fn split_chars(s: &Vec<char>, sep: char) -> (parts: Vec<Vec<char>>)
    ensures
        views(parts@) == split_on(s@, sep),
        parts@.len() >= 1,
{
    let mut parts: Vec<Vec<char>> = Vec::new();
    let mut cur: Vec<char> = Vec::new();
    let mut i: usize = 0;
    proof {
        assert(views(parts@).push(cur@) =~= split_on(s@.take(0), sep));
    }
    while i < s.len()
        invariant
            i <= s@.len(),
            views(parts@).push(cur@) == split_on(s@.take(i as int), sep),
        decreases s@.len() - i,
    {
        let c = s[i];
        let ghost p0 = views(parts@);
        let ghost c0 = cur@;
        proof {
            assert(s@.take(i as int + 1).drop_last() =~= s@.take(i as int));
        }
        if c == sep {
            parts.push(cur);
            cur = Vec::new();
            proof {
                assert(views(parts@) =~= p0.push(c0));
                assert(views(parts@).push(cur@) =~= p0.push(c0).push(Seq::empty()));
            }
        } else {
            cur.push(c);
            proof {
                assert(views(parts@).push(cur@) =~= p0.push(c0).update(p0.len() as int, c0.push(c)));
            }
        }
        i = i + 1;
    }
    let ghost p0 = views(parts@);
    parts.push(cur);
    proof {
        assert(s@.take(i as int) =~= s@);
        assert(views(parts@) =~= p0.push(cur@));
    }
    parts
}

/// `s` without its extension: the part before the last `'.'`, or all of
/// `s` when it has none.
fn stem_chars(s: &Vec<char>) -> (r: Vec<char>)
    ensures
        r@ == stem(s@),
{
    let mut j: usize = s.len();
    proof {
        assert(s@.take(j as int) =~= s@);
    }
    while j > 0 && s[j - 1] != '.'
        invariant
            j <= s@.len(),
            before_last_dot(s@) == before_last_dot(s@.take(j as int)),
        decreases j,
    {
        proof {
            assert(s@.take(j as int).drop_last() =~= s@.take(j as int - 1));
        }
        j = j - 1;
    }
    if j == 0 {
        proof {
            assert(s@.take(0) =~= Seq::<char>::empty());
        }
        let mut r: Vec<char> = Vec::new();
        let mut i: usize = 0;
        while i < s.len()
            invariant
                i <= s@.len(),
                r@ == s@.take(i as int),
            decreases s@.len() - i,
        {
            r.push(s[i]);
            proof {
                assert(s@.take(i as int + 1) =~= s@.take(i as int).push(s@[i as int]));
            }
            i = i + 1;
        }
        proof {
            assert(s@.take(i as int) =~= s@);
        }
        r
    } else {
        proof {
            assert(s@.take(j as int).drop_last() =~= s@.take(j as int - 1));
        }
        let mut r: Vec<char> = Vec::new();
        let mut i: usize = 0;
        while i < j - 1
            invariant
                0 < j <= s@.len(),
                i <= j - 1,
                r@ == s@.take(i as int),
            decreases j - 1 - i,
        {
            r.push(s[i]);
            proof {
                assert(s@.take(i as int + 1) =~= s@.take(i as int).push(s@[i as int]));
            }
            i = i + 1;
        }
        r
    }
}

/// `s` without its trailing ASCII digits.
fn trim_digits_chars(s: &Vec<char>) -> (r: Vec<char>)
    ensures
        r@ == trim_digits(s@),
{
    let mut j: usize = s.len();
    proof {
        assert(s@.take(j as int) =~= s@);
    }
    while j > 0 && '0' <= s[j - 1] && s[j - 1] <= '9'
        invariant
            j <= s@.len(),
            trim_digits(s@) == trim_digits(s@.take(j as int)),
        decreases j,
    {
        proof {
            assert(s@.take(j as int).drop_last() =~= s@.take(j as int - 1));
        }
        j = j - 1;
    }
    let mut r: Vec<char> = Vec::new();
    let mut i: usize = 0;
    while i < j
        invariant
            j <= s@.len(),
            i <= j,
            r@ == s@.take(i as int),
        decreases j - i,
    {
        r.push(s[i]);
        proof {
            assert(s@.take(i as int + 1) =~= s@.take(i as int).push(s@[i as int]));
        }
        i = i + 1;
    }
    r
}

/// Whether `s` spells the literal `lit`.
fn spells(s: &Vec<char>, lit: &str) -> (r: bool)
    ensures
        r == (s@ == lit@),
{
    let l = chars_of(lit);
    chars_eq(s.as_slice(), l.as_slice())
}

/// Whether `s` is one of the direction keywords.
fn is_direction_chars(s: &Vec<char>) -> (r: bool)
    ensures
        r == is_direction(s@),
{
    spells(s, "left") || spells(s, "right") || spells(s, "up") || spells(s, "down") || spells(s, "north")
        || spells(s, "south") || spells(s, "east") || spells(s, "west")
}

/// A copy of `v`.
fn copy_chars(v: &Vec<char>) -> (r: Vec<char>)
    ensures
        r@ == v@,
{
    let mut r: Vec<char> = Vec::new();
    let mut i: usize = 0;
    while i < v.len()
        invariant
            i <= v@.len(),
            r@ == v@.take(i as int),
        decreases v@.len() - i,
    {
        r.push(v[i]);
        proof {
            assert(v@.take(i as int + 1) =~= v@.take(i as int).push(v@[i as int]));
        }
        i = i + 1;
    }
    proof {
        assert(v@.take(i as int) =~= v@);
    }
    r
}

/// Appends the characters of `src` to `v`.
fn append_chars(v: &mut Vec<char>, src: &Vec<char>)
    ensures
        final(v)@ == old(v)@ + src@,
{
    let mut i: usize = 0;
    while i < src.len()
        invariant
            i <= src@.len(),
            v@ == old(v)@ + src@.take(i as int),
        decreases src@.len() - i,
    {
        v.push(src[i]);
        proof {
            assert(src@.take(i as int + 1) =~= src@.take(i as int).push(src@[i as int]));
        }
        i = i + 1;
    }
    proof {
        assert(src@.take(i as int) =~= src@);
    }
}

/// The first `n` parts joined by `'_'`.
fn join_underscore(parts: &Vec<Vec<char>>, n: usize) -> (r: Vec<char>)
    requires
        n <= parts@.len(),
    ensures
        r@ == joined(views(parts@).take(n as int), "_"@),
{
    let mut r: Vec<char> = Vec::new();
    let mut i: usize = 0;
    while i < n
        invariant
            i <= n <= parts@.len(),
            r@ == joined(views(parts@).take(i as int), "_"@),
        decreases n - i,
    {
        let ghost t1 = views(parts@).take(i as int + 1);
        proof {
            assert(t1.drop_last() =~= views(parts@).take(i as int));
            assert(t1.last() == parts@[i as int]@);
        }
        if i > 0 {
            append_str(&mut r, "_");
        }
        append_chars(&mut r, &parts[i]);
        proof {
            if i == 0 {
                assert(r@ =~= t1[0]);
            }
        }
        i = i + 1;
    }
    r
}

/// Whether `t` is one of `tags`.
fn contains_chars(tags: &Vec<Vec<char>>, t: &Vec<char>) -> (r: bool)
    ensures
        r == views(tags@).contains(t@),
{
    let mut i: usize = 0;
    while i < tags.len()
        invariant
            i <= tags@.len(),
            forall|k: int| 0 <= k < i ==> tags@[k]@ != t@,
        decreases tags@.len() - i,
    {
        if chars_eq(tags[i].as_slice(), t.as_slice()) {
            proof {
                assert(views(tags@)[i as int] == t@);
            }
            return true;
        }
        i = i + 1;
    }
    proof {
        if views(tags@).contains(t@) {
            let k = choose|k: int| 0 <= k < views(tags@).len() && views(tags@)[k] == t@;
            assert(tags@[k]@ == t@);
        }
    }
    false
}

/// Appends a copy of `t` to `tags` unless it is already there.
fn push_new_chars(tags: &mut Vec<Vec<char>>, t: &Vec<char>)
    ensures
        views(final(tags)@) == push_new(views(old(tags)@), t@),
{
    if !contains_chars(tags, t) {
        let ghost v0 = views(tags@);
        tags.push(copy_chars(t));
        proof {
            assert(views(tags@) =~= v0.push(t@));
        }
    }
}

/// Converts character vectors to strings.
fn to_strings(vs: &Vec<Vec<char>>) -> (r: Vec<String>)
    ensures
        string_views(r@) == views(vs@),
{
    let mut r: Vec<String> = Vec::new();
    let mut i: usize = 0;
    while i < vs.len()
        invariant
            i <= vs@.len(),
            string_views(r@) == views(vs@).take(i as int),
        decreases vs@.len() - i,
    {
        let ghost r0 = string_views(r@);
        r.push(string_from_chars(vs[i].as_slice()));
        proof {
            assert(string_views(r@) =~= r0.push(vs@[i as int]@));
            assert(views(vs@).take(i as int + 1) =~= views(vs@).take(i as int).push(vs@[i as int]@));
        }
        i = i + 1;
    }
    proof {
        assert(views(vs@).take(i as int) =~= views(vs@));
    }
    r
}

/// Parse an asset file path into a semantic annotation.
///
/// Backslashes count as forward slashes. Returns `None` if the path does not
/// start with `"assets/"`, has no part after the category, or has an empty
/// file name. The category (`"sprites"`, `"tiles"`, `"ui"` or another name)
/// decides the semantic type and the form of `represents`; the file name,
/// without its extension, is split at underscores into state parts and an
/// optional direction keyword (`"left"`, `"right"`, `"up"`, `"down"`,
/// `"north"`, `"south"`, `"east"`, `"west"`, possibly followed by a frame
/// number). Tags are the entity type, the file name parts, the direction and
/// the category, each once, in that order.
pub fn parse_asset_path(path: &str) -> (r: Option<AssetAnnotation>)
    ensures
        match r {
            Some(a) => a.asset_path@ == path@ && annotate(path@) == Some(
                (a.semantic_type@, a.represents@, string_views(a.tags@), a.entity_type@),
            ),
            None => annotate(path@) is None,
        },
{
    let raw = chars_of(path);
    let normalized = normalize_chars(&raw);
    let prefix = chars_of("assets/");
    if !starts_with_chars(&normalized, &prefix) {
        return None;
    }
    let rest = skip_chars(&normalized, prefix.len());
    let parts = split_chars(&rest, '/');
    if parts.len() < 2 {
        return None;
    }
    let ghost ps = views(parts@);
    let category = &parts[0];
    let filename = stem_chars(&parts[parts.len() - 1]);
    proof {
        assert(ps.last() == parts@[parts@.len() - 1]@);
    }
    if filename.len() == 0 {
        return None;
    }
    let is_sprites = spells(category, "sprites");
    let is_tiles = spells(category, "tiles");
    let is_ui = spells(category, "ui");
    let semantic_type = if is_sprites {
        chars_of("character_sprite")
    } else if is_tiles {
        chars_of("tile")
    } else if is_ui {
        chars_of("ui_element")
    } else {
        copy_chars(category)
    };
    let entity_type = if parts.len() >= 3 {
        copy_chars(&parts[1])
    } else {
        copy_chars(&filename)
    };
    let fp = split_chars(&filename, '_');
    let ghost fps = views(fp@);
    let n = fp.len();
    let mut state_len = n;
    let mut direction: Option<Vec<char>> = None;
    if n > 1 {
        let last_clean = trim_digits_chars(&fp[n - 1]);
        proof {
            assert(fps.last() == fp@[n - 1]@);
        }
        if is_direction_chars(&last_clean) {
            state_len = n - 1;
            direction = Some(last_clean);
        } else if last_clean.len() == 0 && n > 2 && is_direction_chars(&fp[n - 2]) {
            state_len = n - 2;
            direction = Some(copy_chars(&fp[n - 2]));
        }
    }
    let ghost sd = state_and_direction(fps);
    proof {
        assert(fps.take(n as int) =~= fps);
        assert(fps.drop_last() =~= fps.take(n as int - 1));
        assert(sd.0 == fps.take(state_len as int));
        assert(match direction {
            Some(d) => sd.1 == Some(d@),
            None => sd.1 is None,
        });
    }
    let state = join_underscore(&fp, state_len);
    let mut represents: Vec<char> = Vec::new();
    if is_sprites {
        append_chars(&mut represents, &entity_type);
        append_str(&mut represents, ".");
        append_chars(&mut represents, &state);
        match &direction {
            Some(d) => {
                append_str(&mut represents, ".facing_");
                append_chars(&mut represents, d);
            },
            None => {},
        }
    } else if is_tiles {
        append_str(&mut represents, "tile.");
        append_chars(&mut represents, &entity_type);
        append_str(&mut represents, ".");
        append_chars(&mut represents, &state);
    } else if is_ui {
        append_str(&mut represents, "ui.");
        append_chars(&mut represents, &state);
    } else {
        append_chars(&mut represents, category);
        append_str(&mut represents, ".");
        append_chars(&mut represents, &entity_type);
        append_str(&mut represents, ".");
        append_chars(&mut represents, &state);
    }
    let mut tags: Vec<Vec<char>> = Vec::new();
    tags.push(copy_chars(&entity_type));
    proof {
        assert(views(tags@) =~= seq![entity_type@]);
        assert(push_all_new(seq![entity_type@], fps.take(0)) == seq![entity_type@]);
    }
    let mut k: usize = 0;
    while k < fp.len()
        invariant
            k <= fp@.len(),
            fps == views(fp@),
            views(tags@) == push_all_new(seq![entity_type@], fps.take(k as int)),
        decreases fp@.len() - k,
    {
        push_new_chars(&mut tags, &fp[k]);
        proof {
            assert(fps.take(k as int + 1).drop_last() =~= fps.take(k as int));
            assert(fps.take(k as int + 1).last() == fp@[k as int]@);
        }
        k = k + 1;
    }
    proof {
        assert(fps.take(k as int) =~= fps);
    }
    match &direction {
        Some(d) => push_new_chars(&mut tags, d),
        None => {},
    }
    push_new_chars(&mut tags, category);
    proof {
        assert(represents@ =~= (annotate(path@)->0).1);
    }
    Some(
        AssetAnnotation {
            asset_path: string_from_chars(raw.as_slice()),
            semantic_type: string_from_chars(semantic_type.as_slice()),
            represents: string_from_chars(represents.as_slice()),
            tags: to_strings(&tags),
            entity_type: string_from_chars(entity_type.as_slice()),
        },
    )
}

/// No element of `s` occurs twice.
pub open spec fn all_distinct(s: Seq<Seq<char>>) -> bool {
    forall|i: int, j: int| 0 <= i < s.len() && 0 <= j < s.len() && i != j ==> s[i] != s[j]
}

proof fn lemma_push_new(tags: Seq<Seq<char>>, t: Seq<char>)
    requires
        all_distinct(tags),
    ensures
        all_distinct(push_new(tags, t)),
        push_new(tags, t).contains(t),
        forall|x: Seq<char>| tags.contains(x) ==> push_new(tags, t).contains(x),
{
    let r = push_new(tags, t);
    if !tags.contains(t) {
        assert(r[tags.len() as int] == t);
        assert forall|x: Seq<char>| tags.contains(x) implies r.contains(x) by {
            let k = choose|k: int| 0 <= k < tags.len() && tags[k] == x;
            assert(r[k] == x);
        }
    }
}

proof fn lemma_push_all_new(tags: Seq<Seq<char>>, ts: Seq<Seq<char>>)
    requires
        all_distinct(tags),
    ensures
        all_distinct(push_all_new(tags, ts)),
        forall|x: Seq<char>| tags.contains(x) ==> push_all_new(tags, ts).contains(x),
        forall|k: int| 0 <= k < ts.len() ==> push_all_new(tags, ts).contains(#[trigger] ts[k]),
    decreases ts.len(),
{
    if ts.len() > 0 {
        lemma_push_all_new(tags, ts.drop_last());
        let r0 = push_all_new(tags, ts.drop_last());
        lemma_push_new(r0, ts.last());
        assert forall|k: int| 0 <= k < ts.len() implies push_all_new(tags, ts).contains(#[trigger] ts[k]) by {
            if k < ts.len() - 1 {
                assert(ts.drop_last()[k] == ts[k]);
            }
        }
    }
}

/// Law: the tags of an annotation are distinct and include its entity type,
/// every underscore-separated part of the file name, its direction and its
/// category (the first path part after `"assets/"`).
pub proof fn lemma_annotation_tags(path: Seq<char>)
    requires
        annotate(path) is Some,
    ensures
        ({
            let (semantic_type, represents, tags, entity_type) = annotate(path)->0;
            let parts = asset_parts(path)->0;
            let fp = split_on(stem(parts.last()), '_');
            &&& all_distinct(tags)
            &&& tags.contains(entity_type)
            &&& tags.contains(parts[0])
            &&& forall|k: int| 0 <= k < fp.len() ==> tags.contains(#[trigger] fp[k])
            &&& (state_and_direction(fp).1 matches Some(d) ==> tags.contains(d))
        }),
{
    let parts = asset_parts(path)->0;
    let filename = stem(parts.last());
    let entity_type = (annotate(path)->0).3;
    let fp = split_on(filename, '_');
    let t0 = seq![entity_type];
    assert(all_distinct(t0));
    assert(t0[0] == entity_type);
    assert(t0.contains(entity_type));
    lemma_push_all_new(t0, fp);
    let tags0 = push_all_new(t0, fp);
    let tags1 = match state_and_direction(fp).1 {
        Some(d) => push_new(tags0, d),
        None => tags0,
    };
    match state_and_direction(fp).1 {
        Some(d) => lemma_push_new(tags0, d),
        None => {},
    }
    lemma_push_new(tags1, parts[0]);
    let tags = push_new(tags1, parts[0]);
    assert((annotate(path)->0).2 == tags);
    assert(tags0.contains(entity_type));
    assert(tags1.contains(entity_type));
    assert forall|k: int| 0 <= k < fp.len() implies tags.contains(#[trigger] fp[k]) by {
        assert(tags0.contains(fp[k]));
        assert(tags1.contains(fp[k]));
    }
}

/// Whether every character of `s` is a decimal digit.
pub open spec fn all_digits(s: Seq<char>) -> bool {
    forall|k: int| 0 <= k < s.len() ==> is_digit(#[trigger] s[k])
}

/// Trailing digits come off a word that does not itself end in a digit.
proof fn lemma_trim_digits_suffix(w: Seq<char>, n: Seq<char>)
    requires
        w.len() > 0,
        !is_digit(w.last()),
        all_digits(n),
    ensures
        trim_digits(w + n) == w,
    decreases n.len(),
{
    if n.len() == 0 {
        assert(w + n =~= w);
    } else {
        assert((w + n).drop_last() =~= w + n.drop_last());
        assert((w + n).last() == n.last());
        lemma_trim_digits_suffix(w, n.drop_last());
    }
}

/// Law: the direction keywords. When the last underscore-separated part of
/// a file name is one of `left`, `right`, `up`, `down`, `north`, `south`,
/// `east` or `west`, followed by any frame number, that keyword is the
/// direction and the parts before it are the state; when the last part is a
/// bare frame number after such a keyword, the keyword is the direction and
/// the parts before it are the state.
pub proof fn lemma_direction_keywords(fp: Seq<Seq<char>>, d: Seq<char>, n: Seq<char>)
    requires
        d == "left"@ || d == "right"@ || d == "up"@ || d == "down"@ || d == "north"@ || d == "south"@ || d
            == "east"@ || d == "west"@,
        all_digits(n),
    ensures
        fp.len() > 1 && fp.last() == d + n ==> state_and_direction(fp) == (fp.drop_last(), Some(d)),
        fp.len() > 2 && fp.last() == n && fp[fp.len() - 2] == d ==> state_and_direction(fp) == (
            fp.take(fp.len() - 2),
            Some(d),
        ),
{
    reveal_strlit("left");
    reveal_strlit("right");
    reveal_strlit("up");
    reveal_strlit("down");
    reveal_strlit("north");
    reveal_strlit("south");
    reveal_strlit("east");
    reveal_strlit("west");
    assert(d.len() > 0 && !is_digit(d.last()));
    lemma_trim_digits_suffix(d, n);
    assert(is_direction(d));
    if n.len() > 0 {
        assert(is_digit(n.last()));
    }
    lemma_trim_all_digits(n);
    assert(!is_direction(Seq::<char>::empty())) by {
        let e = Seq::<char>::empty();
        assert(e.len() == 0);
        assert("left"@.len() == 4 && "right"@.len() == 5 && "up"@.len() == 2 && "down"@.len() == 4);
        assert("north"@.len() == 5 && "south"@.len() == 5 && "east"@.len() == 4 && "west"@.len() == 4);
    }
}

/// A word of digits alone trims to nothing.
proof fn lemma_trim_all_digits(n: Seq<char>)
    requires
        all_digits(n),
    ensures
        trim_digits(n).len() == 0,
    decreases n.len(),
{
    if n.len() > 0 {
        assert(is_digit(n.last()));
        lemma_trim_all_digits(n.drop_last());
    }
}

/// Law: the annotation of a directional sprite. For a path
/// `assets/sprites/<entity>/.../<file>` whose file name, without its
/// extension, splits at underscores into parts ending in a direction keyword
/// `d` (`left`, `right`, `up`, `down`, `north`, `south`, `east` or `west`)
/// followed by a frame number `n`, the annotation is a `character_sprite`
/// of entity type `<entity>` that represents
/// `<entity>.<state>.facing_<d>`, the state being the parts before the
/// keyword joined with underscores.
pub proof fn lemma_sprite_annotation(path: Seq<char>, d: Seq<char>, n: Seq<char>)
    requires
        asset_parts(path) is Some,
        (asset_parts(path)->0).len() >= 3,
        (asset_parts(path)->0)[0] == "sprites"@,
        stem((asset_parts(path)->0).last()).len() > 0,
        split_on(stem((asset_parts(path)->0).last()), '_').len() > 1,
        split_on(stem((asset_parts(path)->0).last()), '_').last() == d + n,
        d == "left"@ || d == "right"@ || d == "up"@ || d == "down"@ || d == "north"@ || d == "south"@ || d
            == "east"@ || d == "west"@,
        all_digits(n),
    ensures
        annotate(path) is Some,
        (annotate(path)->0).0 == "character_sprite"@,
        (annotate(path)->0).3 == (asset_parts(path)->0)[1],
        (annotate(path)->0).1 == (asset_parts(path)->0)[1] + "."@ + joined(
            split_on(stem((asset_parts(path)->0).last()), '_').drop_last(),
            "_"@,
        ) + ".facing_"@ + d,
{
    let fp = split_on(stem((asset_parts(path)->0).last()), '_');
    lemma_direction_keywords(fp, d, n);
}

} // verus!
