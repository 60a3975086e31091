//! Safe, platform-independent relative paths.
//!
//! A [`RelativePath`] is the only way an externally supplied path string may
//! enter or leave an archive.  Construction decomposes the string into
//! components, drops `.` pieces, resolves `..` pieces lexically, normalizes
//! every remaining component to Unicode NFC and holds it to a character
//! filter.  The stored form joins the components with the private separator
//! `'\u{1f}'`, which the filter guarantees can never occur inside a valid
//! component, so the stored form is unambiguous and portable.

use vstd::prelude::*;
use vstd::utf8::{decode_utf8, encode_utf8, valid_utf8, encode_utf8_decode_utf8,
    encode_utf8_valid_utf8};
use vstd::string::StringSliceAdditionalSpecFns;
use crate::error::RelativePathError;
use unic_normal::StrNormalForm;
use unic_ucd::GeneralCategory;

verus! {

/// The private separator that joins stored components.
pub const COMPONENT_SEP: char = '\u{1f}';

/// What the Unicode normalizer returns for a piece of text: canonical
/// composed form (NFC), a function of the characters alone, defined by the
/// Unicode tables rather than restated here.
pub uninterp spec fn nfc_of(s: Seq<char>) -> Seq<char>;

/// The reduced Unicode general category of a character: 1 for a control
/// character, 2 for a separator character, 0 for everything else, as the
/// Unicode tables have it.
pub uninterp spec fn char_class_of(c: char) -> u8;

/// Relies on `unic_normal::StrNormalForm::nfc`: canonical (NFC)
/// normalization of the characters; normalizing an already normalized
/// string changes nothing.
#[verifier::external_body]
fn nfc(s: &str) -> (r: String)
    ensures
        r@ == nfc_of(s@),
        nfc_of(r@) == r@,
{
    s.nfc().collect()
}

/// Relies on `unic_ucd::GeneralCategory::of`: the general category of a
/// character, reduced to the three classes the component filter reads.
#[verifier::external_body]
fn char_class(c: char) -> (r: u8)
    ensures
        r == char_class_of(c),
{
    let cat = GeneralCategory::of(c);
    if cat == GeneralCategory::Control {
        1
    } else if cat == GeneralCategory::SpaceSeparator || cat == GeneralCategory::LineSeparator
        || cat == GeneralCategory::ParagraphSeparator {
        2
    } else {
        0
    }
}

/// Relies on `str::from_utf8`: succeeds exactly on valid UTF-8 and returns
/// the decoded characters.
#[verifier::external_body]
fn utf8_to_str(bytes: &[u8]) -> (r: Option<&str>)
    ensures
        r matches Some(s) ==> valid_utf8(bytes@) && s.spec_bytes() == bytes@,
        valid_utf8(bytes@) ==> r is Some,
{
    str::from_utf8(bytes).ok()
}

/// The White_Space characters, which trimming removes from the ends of a
/// component before it is checked.
pub open spec fn spec_is_space(c: char) -> bool {
    let u = c as u32;
    (0x9 <= u && u <= 0xd) || u == 0x20 || u == 0x85 || u == 0xa0 || u == 0x1680 || (0x2000 <= u
        && u <= 0x200a) || u == 0x2028 || u == 0x2029 || u == 0x202f || u == 0x205f || u == 0x3000
}

/// Whether trimming leaves this character in place: some character at or
/// before it and some character at or after it is not a space.
pub open spec fn spec_in_trim(s: Seq<char>, i: int) -> bool {
    &&& exists|j: int| 0 <= j <= i && !spec_is_space(s[j])
    &&& exists|j: int| i <= j < s.len() && !spec_is_space(s[j])
}

/// Characters the component filter rejects: the backslash, the two
/// separators of this format, Unicode control characters, and Unicode
/// separator characters other than the plain space.  The two separators are
/// named on their own so that nothing below depends on the Unicode tables
/// for the safety of the stored form.
pub open spec fn spec_forbidden_char(c: char) -> bool {
    ||| c == '\\'
    ||| c == '/'
    ||| c == COMPONENT_SEP
    ||| char_class_of(c) == 1
    ||| (char_class_of(c) == 2 && c != ' ')
}

/// A valid stored component: something other than spaces is left after
/// trimming, no character the filter rejects stands inside the trimmed part,
/// and the component is not itself one of the `.` or `..` markers.
pub open spec fn spec_component_ok(s: Seq<char>) -> bool {
    &&& exists|j: int| 0 <= j < s.len() && !spec_is_space(s[j])
    &&& forall|i: int| 0 <= i < s.len() && spec_in_trim(s, i) ==> !spec_forbidden_char(s[i])
    &&& s != seq!['.']
    &&& s != seq!['.', '.']
}

/// A valid component contains neither separator anywhere, trimmed or not:
/// the separators are not spaces, so any occurrence stands inside the
/// trimmed part, where the filter rejects it.
pub proof fn lemma_component_sep_free(s: Seq<char>)
    requires
        spec_component_ok(s),
    ensures
        forall|i: int| 0 <= i < s.len() ==> s[i] != '/' && s[i] != COMPONENT_SEP,
{
    assert forall|i: int| 0 <= i < s.len() implies s[i] != '/' && s[i] != COMPONENT_SEP by {
        if s[i] == '/' || s[i] == COMPONENT_SEP {
            assert(!spec_is_space(s[i]));
            assert(spec_in_trim(s, i));
        }
    }
}

/// Whether trimming leaves this character in place.
fn is_space(c: char) -> (r: bool)
    ensures
        r == spec_is_space(c),
{
    let u = c as u32;
    (0x9 <= u && u <= 0xd) || u == 0x20 || u == 0x85 || u == 0xa0 || u == 0x1680 || (0x2000 <= u
        && u <= 0x200a) || u == 0x2028 || u == 0x2029 || u == 0x202f || u == 0x205f || u == 0x3000
}

/// Whether the component filter rejects this character.
fn forbidden_char(c: char) -> (r: bool)
    ensures
        r == spec_forbidden_char(c),
{
    if c == '\\' || c == '/' || c == '\u{1f}' {
        true
    } else {
        let class = char_class(c);
        class == 1 || (class == 2 && c != ' ')
    }
}

/// Checks one component against [`spec_component_ok`].
fn check_component(s: &str) -> (r: bool)
    ensures
        r == spec_component_ok(s@),
{
    let len = s.unicode_len();
    // The first character trimming keeps.
    let mut first: usize = 0;
    while first < len && is_space(s.get_char(first))
        invariant
            first <= len,
            len == s@.len(),
            forall|j: int| 0 <= j < first ==> spec_is_space(s@[j]),
        decreases len - first,
    {
        first += 1;
    }
    if first == len {
        // All spaces: nothing is left after trimming.
        assert(!spec_component_ok(s@));
        return false;
    }
    // The last character trimming keeps.
    let mut last: usize = len - 1;
    while last > first && is_space(s.get_char(last))
        invariant
            first <= last < len,
            len == s@.len(),
            forall|j: int| last < j < len ==> spec_is_space(s@[j]),
        decreases last,
    {
        last -= 1;
    }
    assert(!spec_is_space(s@[first as int]));
    // Every index in [first, last] is in the trimmed part, and no other is.
    let mut i: usize = first;
    while i <= last
        invariant
            first <= i <= last + 1,
            last < len == s@.len(),
            !spec_is_space(s@[first as int]),
            !spec_is_space(s@[last as int]),
            forall|j: int| 0 <= j < first ==> spec_is_space(s@[j]),
            forall|j: int| last < j < len ==> spec_is_space(s@[j]),
            forall|j: int| first <= j < i ==> !spec_forbidden_char(s@[j]),
        decreases last + 1 - i,
    {
        if forbidden_char(s.get_char(i)) {
            assert(spec_in_trim(s@, i as int));
            return false;
        }
        i += 1;
    }
    // Not the `.` or `..` markers.
    if len == 1 && s.get_char(0) == '.' {
        assert(s@ == seq!['.']);
        return false;
    }
    if len == 2 && s.get_char(0) == '.' && s.get_char(1) == '.' {
        assert(s@ == seq!['.', '.']);
        return false;
    }
    assert forall|k: int| 0 <= k < s@.len() && spec_in_trim(s@, k) implies !spec_forbidden_char(
        s@[k],
    ) by {
        if k < first {
            assert(forall|j: int| 0 <= j <= k ==> spec_is_space(s@[j]));
            assert(!spec_in_trim(s@, k));
        }
        if k > last {
            assert(forall|j: int| k <= j < s@.len() ==> spec_is_space(s@[j]));
            assert(!spec_in_trim(s@, k));
        }
    }
    assert(s@ != seq!['.']) by {
        if s@ == seq!['.'] {
            assert(s@.len() == 1);
        }
    }
    assert(s@ != seq!['.', '.']) by {
        if s@ == seq!['.', '.'] {
            assert(s@.len() == 2);
        }
    }
    true
}

/// Whether this character ends a piece.  `'/'` always does; the private
/// separator does too once a stored form is re-read, which is the same as
/// substituting `'/'` for it first and then splitting.
pub open spec fn spec_is_sep(c: char, also_us: bool) -> bool {
    c == '/' || (also_us && c == COMPONENT_SEP)
}

/// The pieces of a string, split at every separator.  Splitting never
/// returns an empty sequence: an empty string is one empty piece.
pub open spec fn spec_split_path(s: Seq<char>, also_us: bool) -> Seq<Seq<char>>
    decreases s.len(),
{
    if s.len() == 0 {
        seq![Seq::<char>::empty()]
    } else {
        let rest = spec_split_path(s.drop_last(), also_us);
        if spec_is_sep(s.last(), also_us) {
            rest.push(Seq::<char>::empty())
        } else {
            rest.update(rest.len() - 1, rest.last().push(s.last()))
        }
    }
}

pub proof fn lemma_split_path_len(s: Seq<char>, also_us: bool)
    ensures
        spec_split_path(s, also_us).len() >= 1,
    decreases s.len(),
{
    if s.len() > 0 {
        lemma_split_path_len(s.drop_last(), also_us);
    }
}

/// One step of lexical resolution: an empty or `.` piece vanishes, `..`
/// pops the previously accumulated component (a no-op past the root), and
/// any other piece is normalized, checked and pushed.
pub open spec fn spec_step(acc: Seq<Seq<char>>, p: Seq<char>) -> Result<
    Seq<Seq<char>>,
    RelativePathError,
> {
    if p.len() == 0 || p == seq!['.'] {
        Ok(acc)
    } else if p == seq!['.', '.'] {
        if acc.len() == 0 {
            Ok(acc)
        } else {
            Ok(acc.drop_last())
        }
    } else if spec_component_ok(nfc_of(p)) {
        Ok(acc.push(nfc_of(p)))
    } else {
        Err(RelativePathError::Invalid)
    }
}

/// Lexical resolution of a whole sequence of pieces, left to right.
pub open spec fn spec_fold_pieces(pieces: Seq<Seq<char>>) -> Result<
    Seq<Seq<char>>,
    RelativePathError,
>
    decreases pieces.len(),
{
    if pieces.len() == 0 {
        Ok(Seq::empty())
    } else {
        match spec_fold_pieces(pieces.drop_last()) {
            Ok(acc) => spec_step(acc, pieces.last()),
            Err(e) => Err(e),
        }
    }
}

/// What parsing a path string yields: the resolved components, or `Invalid`
/// if a component fails the filter, or `Empty` if nothing is left.
pub open spec fn spec_parse_path(s: Seq<char>, also_us: bool) -> Result<
    Seq<Seq<char>>,
    RelativePathError,
> {
    match spec_fold_pieces(spec_split_path(s, also_us)) {
        Ok(cs) => if cs.len() == 0 {
            Err(RelativePathError::Empty)
        } else {
            Ok(cs)
        },
        Err(e) => Err(e),
    }
}

/// What re-reading a stored byte form yields: decode as text, then parse
/// with the private separator also splitting — the same as substituting the
/// platform separator for it and re-running full construction.
pub open spec fn spec_path_from_bytes(bytes: Seq<u8>) -> Result<
    Seq<Seq<char>>,
    RelativePathError,
> {
    if valid_utf8(bytes) {
        spec_parse_path(decode_utf8(bytes), true)
    } else {
        Err(RelativePathError::Invalid)
    }
}

/// Components joined with the private separator.
pub open spec fn spec_join(cs: Seq<Seq<char>>) -> Seq<char>
    decreases cs.len(),
{
    if cs.len() == 0 {
        Seq::empty()
    } else if cs.len() == 1 {
        cs[0]
    } else {
        spec_join(cs.drop_last()) + seq![COMPONENT_SEP] + cs.last()
    }
}

/// All components are valid and already in normal form.
pub open spec fn spec_comps_ok(cs: Seq<Seq<char>>) -> bool {
    forall|i: int|
        0 <= i < cs.len() ==> spec_component_ok(#[trigger] cs[i]) && nfc_of(cs[i]) == cs[i]
}

proof fn lemma_split_sep_free(s: Seq<char>, also_us: bool)
    requires
        forall|i: int| 0 <= i < s.len() ==> !spec_is_sep(#[trigger] s[i], also_us),
    ensures
        spec_split_path(s, also_us) == seq![s],
    decreases s.len(),
{
    if s.len() == 0 {
        assert(spec_split_path(s, also_us) =~~= seq![s]);
    } else {
        lemma_split_sep_free(s.drop_last(), also_us);
        assert(spec_split_path(s, also_us) =~~= seq![s]);
    }
}

proof fn lemma_split_append_piece(a: Seq<char>, b: Seq<char>, also_us: bool)
    requires
        a.len() > 0,
        forall|i: int| 0 <= i < b.len() ==> !spec_is_sep(#[trigger] b[i], also_us),
    ensures
        spec_split_path(a + b, also_us) == spec_split_path(a, also_us).update(
            spec_split_path(a, also_us).len() - 1,
            spec_split_path(a, also_us).last() + b,
        ),
    decreases b.len(),
{
    lemma_split_path_len(a, also_us);
    let sa = spec_split_path(a, also_us);
    if b.len() == 0 {
        assert(a + b =~= a);
        assert(sa.last() + b =~= sa.last());
        assert(sa.update(sa.len() - 1, sa.last()) =~~= sa);
    } else {
        lemma_split_append_piece(a, b.drop_last(), also_us);
        assert((a + b).drop_last() =~= a + b.drop_last());
        assert((a + b).last() == b.last());
        let sab = spec_split_path(a + b.drop_last(), also_us);
        assert(sab.len() == sa.len());
        assert(spec_split_path(a + b, also_us) =~~= sa.update(sa.len() - 1, sa.last() + b)) by {
            assert(sab.last() == sa.last() + b.drop_last());
            assert((sa.last() + b.drop_last()).push(b.last()) =~= sa.last() + b);
        }
    }
}

/// Splitting the join of separator-free components gives them back.
proof fn lemma_split_join(cs: Seq<Seq<char>>, also_us: bool)
    requires
        cs.len() > 0,
        forall|i: int, j: int|
            0 <= i < cs.len() && 0 <= j < cs[i].len() ==> !spec_is_sep(#[trigger] cs[i][j], true),
    ensures
        spec_split_path(spec_join(cs), true) == cs,
    decreases cs.len(),
{
    if cs.len() == 1 {
        lemma_split_sep_free(cs[0], true);
        assert(spec_join(cs) == cs[0]);
        assert(spec_split_path(spec_join(cs), true) =~~= cs);
    } else {
        lemma_split_join(cs.drop_last(), true);
        let j = spec_join(cs.drop_last());
        let mid = j + seq![COMPONENT_SEP];
        assert(spec_join(cs) == j + seq![COMPONENT_SEP] + cs.last());
        // Splitting up to and including the separator adds one empty piece.
        assert(mid.drop_last() =~= j);
        assert(spec_is_sep(mid.last(), true));
        assert(spec_split_path(mid, true) == spec_split_path(j, true).push(Seq::empty()));
        if cs.last().len() == 0 {
            assert(mid + cs.last() =~= mid);
            assert(spec_split_path(spec_join(cs), true) =~~= cs) by {
                assert(spec_split_path(j, true) == cs.drop_last());
            }
        } else {
            lemma_split_append_piece(mid, cs.last(), true);
            assert(spec_split_path(j, true) == cs.drop_last());
            let sm = spec_split_path(mid, true);
            assert(sm.last() + cs.last() =~= cs.last());
            assert(spec_split_path(mid + cs.last(), true) =~~= cs);
            assert(mid + cs.last() == spec_join(cs));
        }
    }
}

/// Folding components that are already resolved and valid gives them back.
proof fn lemma_fold_all_normal(cs: Seq<Seq<char>>)
    requires
        spec_comps_ok(cs),
    ensures
        spec_fold_pieces(cs) == Ok::<_, RelativePathError>(cs),
    decreases cs.len(),
{
    if cs.len() == 0 {
        assert(cs =~~= Seq::<Seq<char>>::empty());
    } else {
        assert(spec_comps_ok(cs.drop_last()));
        lemma_fold_all_normal(cs.drop_last());
        let p = cs.last();
        assert(spec_component_ok(p));
        assert(p.len() > 0);
        assert(p != seq!['.'] && p != seq!['.', '.']);
        assert(spec_step(cs.drop_last(), p) == Ok::<_, RelativePathError>(
            cs.drop_last().push(p),
        ));
        assert(cs.drop_last().push(p) =~~= cs);
    }
}

/// Round trip at the component level: the joined, UTF-8 encoded form of
/// valid resolved components re-reads to exactly those components.
pub proof fn lemma_components_round_trip(cs: Seq<Seq<char>>)
    requires
        cs.len() > 0,
        spec_comps_ok(cs),
    ensures
        spec_path_from_bytes(encode_utf8(spec_join(cs))) == Ok::<_, RelativePathError>(cs),
        spec_join(cs).len() > 0,
    decreases cs.len(),
{
    let joined = spec_join(cs);
    assert(cs[0].len() > 0) by {
        assert(spec_component_ok(cs[0]));
    }
    if cs.len() == 1 {
        assert(joined == cs[0]);
    } else {
        assert(joined == spec_join(cs.drop_last()) + seq![COMPONENT_SEP] + cs.last());
        assert(joined.len() >= 1);
    }
    encode_utf8_valid_utf8(joined);
    encode_utf8_decode_utf8(joined);
    assert forall|i: int, j: int|
        0 <= i < cs.len() && 0 <= j < cs[i].len() implies !spec_is_sep(#[trigger] cs[i][j], true) by {
        lemma_component_sep_free(cs[i]);
    }
    lemma_split_join(cs, true);
    lemma_fold_all_normal(cs);
}

/// A normalized and validated relative path, stored as its components
/// joined with the private separator.
#[derive(Clone, Debug)]
pub struct RelativePath {
    inner: String,
}

impl RelativePath {
    /// The stored form.
    pub closed spec fn spec_inner(self) -> Seq<char> {
        self.inner@
    }

    /// The components of the path.
    pub closed spec fn components(self) -> Seq<Seq<char>> {
        spec_split_path(self.inner@, true)
    }

    /// Well-formed: at least one component, every component valid and
    /// already in normal form, and the stored form exactly their join.
    pub closed spec fn wf(self) -> bool {
        &&& self.components().len() > 0
        &&& spec_comps_ok(self.components())
        &&& self.spec_inner() == spec_join(self.components())
    }

    /// A well-formed path has at least one component and a non-empty
    /// stored form.
    pub proof fn lemma_wf(self)
        requires
            self.wf(),
        ensures
            self.components().len() > 0,
            self.spec_inner().len() > 0,
            self.components() == spec_split_path(self.spec_inner(), true),
            self.spec_inner() == spec_join(self.components()),
            spec_comps_ok(self.components()),
    {
        let cs = self.components();
        assert(spec_component_ok(cs[0]));
        assert(cs[0].len() > 0);
        if self.inner@.len() == 0 {
            assert(cs =~~= seq![Seq::<char>::empty()]);
        }
    }

    /// Round trip: re-reading the stored bytes of a well-formed path yields
    /// exactly its components — a corrupted archive cannot smuggle a path
    /// past validation, and an intact one reproduces the path.
    pub proof fn lemma_round_trip(self)
        requires
            self.wf(),
        ensures
            spec_path_from_bytes(encode_utf8(self.spec_inner())) == Ok::<_, RelativePathError>(
                self.components(),
            ),
    {
        encode_utf8_valid_utf8(self.inner@);
        encode_utf8_decode_utf8(self.inner@);
        lemma_fold_all_normal(self.components());
        self.lemma_wf();
    }

    /// Canonicalizes and validates a path string.
    pub fn new(path: &str) -> (r: Result<RelativePath, RelativePathError>)
        ensures
            match r {
                Ok(p) => p.wf() && spec_parse_path(path@, false) == Ok::<_, RelativePathError>(
                    p.components(),
                ),
                Err(e) => spec_parse_path(path@, false) == Err::<Seq<Seq<char>>, _>(e),
            },
    {
        match parse_components(path, false) {
            Ok(comps) => build_path(comps),
            Err(e) => Err(e),
        }
    }

    /// Re-validates a stored byte form, exactly as construction would: a
    /// corrupted or malicious archive cannot smuggle an unsanitized path
    /// past the filter.
    pub fn from_bytes(bytes: &[u8]) -> (r: Result<RelativePath, RelativePathError>)
        ensures
            match r {
                Ok(p) => p.wf() && spec_path_from_bytes(bytes@) == Ok::<_, RelativePathError>(
                    p.components(),
                ),
                Err(e) => spec_path_from_bytes(bytes@) == Err::<Seq<Seq<char>>, _>(e),
            },
    {
        let s = match utf8_to_str(bytes) {
            Some(s) => s,
            None => {
                return Err(RelativePathError::Invalid);
            },
        };
        proof {
            encode_utf8_decode_utf8(s@);
        }
        match parse_components(s, true) {
            Ok(comps) => build_path(comps),
            Err(e) => Err(e),
        }
    }

    /// The stored bytes of the path: its components joined with the private
    /// separator, UTF-8 encoded.
    pub fn to_bytes(&self) -> (r: Vec<u8>)
        ensures
            r@ == encode_utf8(self.spec_inner()),
    {
        self.inner.as_str().as_bytes_vec()
    }

    /// The path rendered with the platform separator, for presentation and
    /// for joining onto a destination directory during extraction.
    pub fn to_path_buf(&self) -> (r: String)
        ensures
            r@ == self.spec_inner().map_values(
                |c: char|
                    if c == COMPONENT_SEP {
                        '/'
                    } else {
                        c
                    },
            ),
    {
        let ghost mapped = self.inner@.map_values(
            |c: char|
                if c == COMPONENT_SEP {
                    '/'
                } else {
                    c
                },
        );
        let len = self.inner.as_str().unicode_len();
        let mut out = String::new();
        let mut i: usize = 0;
        while i < len
            invariant
                i <= len,
                len == self.inner@.len(),
                mapped == self.inner@.map_values(
                    |c: char|
                        if c == COMPONENT_SEP {
                            '/'
                        } else {
                            c
                        },
                ),
                out@ =~= mapped.subrange(0, i as int),
            decreases len - i,
        {
            let c = self.inner.as_str().get_char(i);
            if c == '\u{1f}' {
                out.append("/");
                proof {
                    reveal_strlit("/");
                }
            } else {
                let piece = self.inner.as_str().substring_char(i, i + 1);
                out.append(piece);
            }
            assert(out@ =~= mapped.subrange(0, i + 1));
            i += 1;
        }
        assert(out@ =~= mapped);
        out
    }
}

/// Joins resolved components into a stored path, or reports that nothing
/// was left.
fn build_path(comps: Vec<String>) -> (r: Result<RelativePath, RelativePathError>)
    requires
        spec_comps_ok(comps.deep_view()),
    ensures
        match r {
            Ok(p) => p.wf() && comps.deep_view().len() > 0 && p.components() == comps.deep_view(),
            Err(e) => e == RelativePathError::Empty && comps.deep_view().len() == 0,
        },
{
    let n = comps.len();
    if n == 0 {
        return Err(RelativePathError::Empty);
    }
    let ghost cs = comps.deep_view();
    let mut inner = String::new();
    let mut k: usize = 0;
    assert(inner@ =~= spec_join(cs.subrange(0, 0)));
    while k < n
        invariant
            k <= n,
            n == comps@.len(),
            cs == comps.deep_view(),
            cs.len() == n,
            spec_comps_ok(cs),
            inner@ == spec_join(cs.subrange(0, k as int)),
        decreases n - k,
    {
        if k > 0 {
            inner.append("\u{1f}");
            proof {
                reveal_strlit("\u{1f}");
            }
        }
        inner.append(comps[k].as_str());
        proof {
            let pre = cs.subrange(0, k as int);
            let now = cs.subrange(0, k + 1);
            assert(now.drop_last() =~~= pre);
            assert(now.last() == cs[k as int]);
            assert(comps[k as int]@ == cs[k as int]);
            if k == 0 {
                assert(inner@ =~= spec_join(now));
            } else {
                assert(spec_join(now) == spec_join(pre) + seq![COMPONENT_SEP] + cs[k as int]);
                assert(inner@ =~= spec_join(now));
            }
        }
        k += 1;
    }
    assert(cs.subrange(0, n as int) =~~= cs);
    let p = RelativePath { inner };
    proof {
        assert forall|i: int, j: int|
            0 <= i < cs.len() && 0 <= j < cs[i].len() implies !spec_is_sep(
            #[trigger] cs[i][j],
            true,
        ) by {
            lemma_component_sep_free(cs[i]);
        }
        lemma_split_join(cs, true);
    }
    Ok(p)
}

/// Applies one piece to the accumulated components, as [`spec_step`] says.
fn handle_piece(comps: &mut Vec<String>, piece: &str) -> (r: Result<(), RelativePathError>)
    requires
        spec_comps_ok(old(comps).deep_view()),
    ensures
        match r {
            Ok(_) => spec_step(old(comps).deep_view(), piece@) == Ok::<_, RelativePathError>(
                final(comps).deep_view(),
            ) && spec_comps_ok(final(comps).deep_view()),
            Err(e) => spec_step(old(comps).deep_view(), piece@) == Err::<Seq<Seq<char>>, _>(e),
        },
{
    let len = piece.unicode_len();
    if len == 0 {
        return Ok(());
    }
    if len == 1 && piece.get_char(0) == '.' {
        assert(piece@ =~= seq!['.']);
        return Ok(());
    }
    if len == 2 && piece.get_char(0) == '.' && piece.get_char(1) == '.' {
        assert(piece@ =~= seq!['.', '.']);
        let ghost before = comps.deep_view();
        let popped = comps.pop();
        proof {
            if before.len() == 0 {
                assert(comps.deep_view() =~~= before);
            } else {
                assert(comps.deep_view() =~~= before.drop_last());
            }
        }
        return Ok(());
    }
    let n = nfc(piece);
    if check_component(n.as_str()) {
        let ghost before = comps.deep_view();
        comps.push(n);
        assert(comps.deep_view() =~~= before.push(n@));
        Ok(())
    } else {
        Err(RelativePathError::Invalid)
    }
}

/// Splits a string at its separators and resolves the pieces left to right.
fn parse_components(s: &str, also_us: bool) -> (r: Result<Vec<String>, RelativePathError>)
    ensures
        match r {
            Ok(cs) => spec_fold_pieces(spec_split_path(s@, also_us)) == Ok::<
                _,
                RelativePathError,
            >(cs.deep_view()) && spec_comps_ok(cs.deep_view()),
            Err(e) => spec_parse_path(s@, also_us) == Err::<Seq<Seq<char>>, _>(e),
        },
{
    let len = s.unicode_len();
    let mut comps: Vec<String> = Vec::new();
    let mut start: usize = 0;
    let mut i: usize = 0;
    assert(s@.subrange(0, 0) =~= Seq::<char>::empty());
    assert(comps.deep_view() =~~= Seq::<Seq<char>>::empty());
    while i < len
        invariant
            start <= i <= len,
            len == s@.len(),
            spec_comps_ok(comps.deep_view()),
            spec_fold_pieces(spec_split_path(s@.subrange(0, i as int), also_us).drop_last())
                == Ok::<_, RelativePathError>(comps.deep_view()),
            spec_split_path(s@.subrange(0, i as int), also_us).last() == s@.subrange(
                start as int,
                i as int,
            ),
            spec_split_path(s@.subrange(0, i as int), also_us).len() >= 1,
        decreases len - i,
    {
        let ghost prefix = s@.subrange(0, i as int);
        let ghost sp = spec_split_path(prefix, also_us);
        let c = s.get_char(i);
        assert(s@.subrange(0, i + 1) =~= prefix.push(c));
        assert(prefix.push(c).drop_last() =~= prefix);
        assert(prefix.push(c).last() == c);
        if c == '/' || (also_us && c == '\u{1f}') {
            let piece = s.substring_char(start, i);
            assert(piece@ == sp.last());
            match handle_piece(&mut comps, piece) {
                Ok(_) => {},
                Err(e) => {
                    proof {
                        assert(spec_fold_pieces(sp) == Err::<Seq<Seq<char>>, _>(e));
                        lemma_split_concat_at_sep(s@, i as int, also_us);
                        lemma_fold_err_extend(
                            sp,
                            spec_split_path(s@.subrange(i + 1, s@.len() as int), also_us),
                            e,
                        );
                    }
                    return Err(e);
                },
            }
            start = i + 1;
            proof {
                let sp2 = spec_split_path(prefix.push(c), also_us);
                assert(sp2 == sp.push(Seq::<char>::empty()));
                assert(sp2.drop_last() =~~= sp);
                assert(sp2.last() =~= s@.subrange(start as int, i + 1));
            }
        } else {
            proof {
                let sp2 = spec_split_path(prefix.push(c), also_us);
                assert(sp2 == sp.update(sp.len() - 1, sp.last().push(c)));
                assert(sp2.drop_last() =~~= sp.drop_last());
                assert(sp2.last() =~= s@.subrange(start as int, i + 1));
            }
        }
        i += 1;
    }
    assert(s@.subrange(0, len as int) =~= s@);
    let piece = s.substring_char(start, len);
    assert(piece@ == spec_split_path(s@, also_us).last());
    match handle_piece(&mut comps, piece) {
        Ok(_) => Ok(comps),
        Err(e) => Err(e),
    }
}

/// Splitting breaks apart at a separator: the pieces of the whole are the
/// pieces before it followed by the pieces after it.
proof fn lemma_split_concat_at_sep(s: Seq<char>, i: int, also_us: bool)
    requires
        0 <= i < s.len(),
        spec_is_sep(s[i], also_us),
    ensures
        spec_split_path(s, also_us) == spec_split_path(s.subrange(0, i), also_us)
            + spec_split_path(s.subrange(i + 1, s.len() as int), also_us),
    decreases s.len(),
{
    let prefix = s.subrange(0, i);
    let suffix = s.subrange(i + 1, s.len() as int);
    if i == s.len() - 1 {
        assert(s.drop_last() =~= prefix);
        assert(suffix =~= Seq::<char>::empty());
        assert(spec_split_path(s, also_us) =~~= spec_split_path(prefix, also_us)
            + spec_split_path(suffix, also_us));
    } else {
        lemma_split_concat_at_sep(s.drop_last(), i, also_us);
        let mid = s.drop_last().subrange(i + 1, s.len() - 1);
        assert(s.drop_last().subrange(0, i) =~= prefix);
        assert(suffix.drop_last() =~= mid);
        lemma_split_path_len(mid, also_us);
        lemma_split_path_len(prefix, also_us);
        let sp = spec_split_path(prefix, also_us);
        let sm = spec_split_path(mid, also_us);
        if spec_is_sep(s.last(), also_us) {
            assert(spec_split_path(s, also_us) == (sp + sm).push(Seq::<char>::empty()));
            assert(spec_split_path(suffix, also_us) == sm.push(Seq::<char>::empty()));
            assert((sp + sm).push(Seq::<char>::empty()) =~~= sp + sm.push(Seq::<char>::empty()));
        } else {
            let c = s.last();
            assert(suffix.last() == c);
            assert(spec_split_path(s, also_us) == (sp + sm).update(
                sp.len() + sm.len() - 1,
                sm.last().push(c),
            ));
            assert(spec_split_path(suffix, also_us) == sm.update(sm.len() - 1, sm.last().push(c)));
            assert((sp + sm).update(sp.len() + sm.len() - 1, sm.last().push(c)) =~~= sp
                + sm.update(sm.len() - 1, sm.last().push(c)));
        }
    }
}

/// An error in a left part of the pieces is the error of the whole fold:
/// folding propagates the first failure.
proof fn lemma_fold_err_extend(a: Seq<Seq<char>>, b: Seq<Seq<char>>, e: RelativePathError)
    requires
        spec_fold_pieces(a) == Err::<Seq<Seq<char>>, _>(e),
    ensures
        spec_fold_pieces(a + b) == Err::<Seq<Seq<char>>, _>(e),
    decreases b.len(),
{
    if b.len() == 0 {
        assert(a + b =~~= a);
    } else {
        lemma_fold_err_extend(a, b.drop_last(), e);
        assert((a + b).drop_last() =~~= a + b.drop_last());
    }
}

} // verus!
