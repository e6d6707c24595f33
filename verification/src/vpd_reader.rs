use vstd::prelude::*;

use crate::common::{views, ReadError};
use crate::motion::BoneKeyframe;
use crate::text::{decode_windows_31j, is_whitespace_char, push_char, unicode_white_space, windows_31j_decode};

verus! {

/// The characters of `s`.
pub fn chars_of(s: &str) -> (v: Vec<char>)
    ensures
        v@ == s@,
{
    let mut v: Vec<char> = Vec::new();
    for c in iter: s.chars()
        invariant
            iter.seq() == s@,
            v@ == iter.seq().take(iter.index()),
    {
        v.push(c);
        assert(v@ =~= iter.seq().take(iter.index() + 1));
    }
    assert(v@ =~= s@);
    v
}


/// The string of the characters `cs`.
pub fn string_of(cs: &Vec<char>) -> (s: String)
    ensures
        s@ == cs@,
{
    let mut s = String::new();
    let mut i: usize = 0;
    while i < cs.len()
        invariant
            i <= cs@.len(),
            s@ == cs@.take(i as int),
        decreases cs@.len() - i,
    {
        push_char(&mut s, cs[i]);
        i = i + 1;
        assert(s@ =~= cs@.take(i as int));
    }
    assert(cs@.take(cs@.len() as int) =~= cs@);
    s
}

/// The characters `cs[from..to]`.
fn sub_chars(cs: &Vec<char>, from: usize, to: usize) -> (v: Vec<char>)
    requires
        from <= to <= cs@.len(),
    ensures
        v@ == cs@.subrange(from as int, to as int),
{
    let mut v: Vec<char> = Vec::new();
    let mut i = from;
    assert(v@ =~= cs@.subrange(from as int, from as int));
    while i < to
        invariant
            from <= i <= to <= cs@.len(),
            v@ == cs@.subrange(from as int, i as int),
        decreases to - i,
    {
        v.push(cs[i]);
        i = i + 1;
        assert(v@ =~= cs@.subrange(from as int, i as int));
    }
    v
}

// ---------------------------------------------------------------------------
// Whitespace
// ---------------------------------------------------------------------------

/// The first offset at or after `i` whose character is not whitespace (the
/// length when there is none).
pub open spec fn skip_ws(s: Seq<char>, i: int) -> int
    decreases s.len() - i,
{
    if i < 0 || i >= s.len() {
        s.len() as int
    } else if unicode_white_space(s[i]) {
        skip_ws(s, i + 1)
    } else {
        i
    }
}

/// The end of `s[..j]` without its trailing whitespace.
pub open spec fn end_ws(s: Seq<char>, j: int) -> int
    decreases j,
{
    if j <= 0 || j > s.len() {
        0
    } else if unicode_white_space(s[j - 1]) {
        end_ws(s, j - 1)
    } else {
        j
    }
}

/// `s` without leading and trailing whitespace.
pub open spec fn trim(s: Seq<char>) -> Seq<char> {
    let a = skip_ws(s, 0);
    let b = end_ws(s, s.len() as int);
    if a < b {
        s.subrange(a, b)
    } else {
        Seq::empty()
    }
}

/// The first offset at or after `i` whose character is whitespace (the
/// length when there is none).
pub open spec fn token_end(s: Seq<char>, i: int) -> int
    decreases s.len() - i,
{
    if i < 0 || i >= s.len() {
        s.len() as int
    } else if unicode_white_space(s[i]) {
        i
    } else {
        token_end(s, i + 1)
    }
}

pub proof fn lemma_skip_ws(s: Seq<char>, i: int)
    requires
        0 <= i,
    ensures
        skip_ws(s, i) == s.len() || (i <= skip_ws(s, i) < s.len() && !unicode_white_space(s[skip_ws(s, i)])),
        i <= s.len() ==> i <= skip_ws(s, i) <= s.len(),
    decreases s.len() - i,
{
    if i < s.len() && unicode_white_space(s[i]) {
        lemma_skip_ws(s, i + 1);
    }
}

pub proof fn lemma_token_end(s: Seq<char>, i: int)
    requires
        0 <= i <= s.len(),
    ensures
        i <= token_end(s, i) <= s.len(),
        i < s.len() && !unicode_white_space(s[i]) ==> i < token_end(s, i),
    decreases s.len() - i,
{
    if i < s.len() && !unicode_white_space(s[i]) {
        lemma_token_end(s, i + 1);
    }
}

/// The whitespace-separated tokens of `s` from offset `i` on.
pub open spec fn tokens_from(s: Seq<char>, i: int) -> Seq<Seq<char>>
    decreases s.len() + 1 - i,
{
    if i < 0 || i > s.len() {
        Seq::empty()
    } else {
        let a = skip_ws(s, i);
        if a >= s.len() {
            Seq::empty()
        } else {
            proof {
                lemma_skip_ws(s, i);
                lemma_token_end(s, a);
            }
            let b = token_end(s, a);
            seq![s.subrange(a, b)] + tokens_from(s, b)
        }
    }
}

/// The whitespace-separated tokens of `s`, as `str::split_whitespace` yields them.
pub open spec fn ws_tokens(s: Seq<char>) -> Seq<Seq<char>> {
    tokens_from(s, 0)
}

/// The first offset at or after `i` whose character is not whitespace.
fn skip_whitespace(cs: &Vec<char>, i: usize) -> (r: usize)
    requires
        i <= cs@.len(),
    ensures
        r == skip_ws(cs@, i as int),
{
    let mut j = i;
    while j < cs.len() && is_whitespace_char(cs[j])
        invariant
            i <= j <= cs@.len(),
            skip_ws(cs@, i as int) == skip_ws(cs@, j as int),
        decreases cs@.len() - j,
    {
        j = j + 1;
    }
    j
}

/// The first offset at or after `i` whose character is whitespace.
fn find_token_end(cs: &Vec<char>, i: usize) -> (r: usize)
    requires
        i <= cs@.len(),
    ensures
        r == token_end(cs@, i as int),
{
    let mut j = i;
    while j < cs.len() && !is_whitespace_char(cs[j])
        invariant
            i <= j <= cs@.len(),
            token_end(cs@, i as int) == token_end(cs@, j as int),
        decreases cs@.len() - j,
    {
        j = j + 1;
    }
    j
}

/// `cs` without leading and trailing whitespace.
pub fn trim_chars(cs: &Vec<char>) -> (v: Vec<char>)
    ensures
        v@ == trim(cs@),
{
    let a = skip_whitespace(cs, 0);
    let mut b = cs.len();
    while b > 0 && is_whitespace_char(cs[b - 1])
        invariant
            b <= cs@.len(),
            end_ws(cs@, cs@.len() as int) == end_ws(cs@, b as int),
        decreases b,
    {
        b = b - 1;
    }
    if a < b {
        sub_chars(cs, a, b)
    } else {
        Vec::new()
    }
}

/// The whitespace-separated tokens of `cs`.
pub fn split_whitespace_chars(cs: &Vec<char>) -> (v: Vec<Vec<char>>)
    ensures
        views(v@) == ws_tokens(cs@),
{
    let mut v: Vec<Vec<char>> = Vec::new();
    let mut i: usize = 0;
    assert(views(v@) + tokens_from(cs@, 0) =~= ws_tokens(cs@));
    loop
        invariant
            i <= cs@.len(),
            views(v@) + tokens_from(cs@, i as int) == ws_tokens(cs@),
        decreases cs@.len() - i,
    {
        let a = skip_whitespace(cs, i);
        proof {
            lemma_skip_ws(cs@, i as int);
        }
        if a >= cs.len() {
            assert(views(v@) + tokens_from(cs@, i as int) =~= views(v@));
            return v;
        }
        let b = find_token_end(cs, a);
        proof {
            lemma_token_end(cs@, a as int);
        }
        let ghost before = views(v@);
        v.push(sub_chars(cs, a, b));
        assert(views(v@) =~= before.push(cs@.subrange(a as int, b as int)));
        assert(before + tokens_from(cs@, i as int) =~= views(v@) + tokens_from(cs@, b as int));
        i = b;
    }
}


// ---------------------------------------------------------------------------
// Splitting at a pattern
// ---------------------------------------------------------------------------

/// `pat` occurs in `s` at offset `i`.
pub open spec fn match_at(s: Seq<char>, pat: Seq<char>, i: int) -> bool {
    0 <= i && i + pat.len() <= s.len() && s.subrange(i, i + pat.len()) == pat
}

/// The first offset at or after `i` where `pat` occurs in `s`, or -1.
pub open spec fn find_from(s: Seq<char>, pat: Seq<char>, i: int) -> int
    decreases s.len() + 1 - i,
{
    if i < 0 || i + pat.len() > s.len() {
        -1
    } else if match_at(s, pat, i) {
        i
    } else {
        find_from(s, pat, i + 1)
    }
}

pub proof fn lemma_find_from(s: Seq<char>, pat: Seq<char>, i: int)
    ensures
        find_from(s, pat, i) >= 0 ==> i <= find_from(s, pat, i) && find_from(s, pat, i) + pat.len()
            <= s.len(),
    decreases s.len() + 1 - i,
{
    if !(i < 0 || i + pat.len() > s.len()) && !match_at(s, pat, i) {
        lemma_find_from(s, pat, i + 1);
    }
}

/// The pieces of `s[start..]` between the non-overlapping occurrences of
/// `pat`, found left to right.
pub open spec fn split_from(s: Seq<char>, pat: Seq<char>, start: int) -> Seq<Seq<char>>
    decreases s.len() + 1 - start,
{
    if pat.len() == 0 || start < 0 || start > s.len() {
        seq![s]
    } else {
        let k = find_from(s, pat, start);
        if k < 0 {
            seq![s.subrange(start, s.len() as int)]
        } else {
            proof {
                lemma_find_from(s, pat, start);
            }
            seq![s.subrange(start, k)] + split_from(s, pat, k + pat.len())
        }
    }
}

/// The pieces of `s` between the occurrences of the non-empty `pat`, as
/// `str::split` yields them.
pub open spec fn split(s: Seq<char>, pat: Seq<char>) -> Seq<Seq<char>> {
    split_from(s, pat, 0)
}

/// The part of `s` before the first occurrence of `pat` (all of `s` when
/// there is none).
pub open spec fn before_first(s: Seq<char>, pat: Seq<char>) -> Seq<char> {
    split(s, pat)[0]
}

/// Whether `pat` occurs in `cs` at offset `i`.
fn matches_at(cs: &Vec<char>, pat: &Vec<char>, i: usize) -> (b: bool)
    requires
        i + pat@.len() <= cs@.len(),
    ensures
        b == match_at(cs@, pat@, i as int),
{
    let n = cs.len();
    let mut j: usize = 0;
    while j < pat.len()
        invariant
            n == cs@.len(),
            j <= pat@.len(),
            i + pat@.len() <= cs@.len(),
            forall|k: int| 0 <= k < j ==> cs@[i + k] == pat@[k],
        decreases pat@.len() - j,
    {
        if cs[i + j] != pat[j] {
            assert(cs@.subrange(i as int, i + pat@.len())[j as int] != pat@[j as int]);
            return false;
        }
        j = j + 1;
    }
    assert(cs@.subrange(i as int, i + pat@.len()) =~= pat@);
    true
}

/// The first offset at or after `i` where `pat` occurs in `cs`.
fn find_pattern(cs: &Vec<char>, pat: &Vec<char>, i: usize) -> (r: Option<usize>)
    requires
        i <= cs@.len(),
        pat@.len() > 0,
    ensures
        match r {
            Some(k) => k == find_from(cs@, pat@, i as int),
            None => find_from(cs@, pat@, i as int) < 0,
        },
{
    let mut j = i;
    while pat.len() <= cs.len() - j
        invariant
            i <= j <= cs@.len(),
            pat@.len() > 0,
            find_from(cs@, pat@, i as int) == find_from(cs@, pat@, j as int),
        decreases cs@.len() + 1 - j,
    {
        if matches_at(cs, pat, j) {
            return Some(j);
        }
        j = j + 1;
    }
    None
}

/// The pieces of `cs` between the occurrences of the non-empty `pat`.
pub fn split_chars(cs: &Vec<char>, pat: &Vec<char>) -> (v: Vec<Vec<char>>)
    requires
        pat@.len() > 0,
    ensures
        views(v@) == split(cs@, pat@),
        v@.len() >= 1,
{
    let n = cs.len();
    let mut v: Vec<Vec<char>> = Vec::new();
    let mut start: usize = 0;
    assert(views(v@) + split_from(cs@, pat@, 0) =~= split(cs@, pat@));
    loop
        invariant
            pat@.len() > 0,
            n == cs@.len(),
            start <= cs@.len(),
            views(v@) + split_from(cs@, pat@, start as int) == split(cs@, pat@),
        decreases cs@.len() + 1 - start,
    {
        let ghost before = views(v@);
        match find_pattern(cs, pat, start) {
            None => {
                v.push(sub_chars(cs, start, cs.len()));
                assert(views(v@) =~= before + split_from(cs@, pat@, start as int));
                return v;
            },
            Some(k) => {
                proof {
                    lemma_find_from(cs@, pat@, start as int);
                }
                v.push(sub_chars(cs, start, k));
                assert(views(v@) =~= before.push(cs@.subrange(start as int, k as int)));
                assert(before + split_from(cs@, pat@, start as int) =~= views(v@)
                    + split_from(cs@, pat@, k + pat@.len()));
                start = k + pat.len();
            },
        }
    }
}


// ---------------------------------------------------------------------------
// Pose files
// ---------------------------------------------------------------------------

/// The first section of a pose file.
pub const VPD_HEADER: &'static str = "Vocaloid Pose Data file";

/// What separates the sections of a pose file.
pub open spec fn section_separator() -> Seq<char> {
    seq!['\r', '\n', '\r', '\n']
}

/// What ends the model name in the second section of a pose file.
pub open spec fn model_name_end() -> Seq<char> {
    seq!['.', 'o', 's', 'm', ';']
}

/// A bone of a pose file: its name, and the comma-separated number fields
/// of its position and rotation as text (absent when the bone section
/// has no such token).
pub struct VpdBone {
    pub name: String,
    pub trans: Option<Vec<String>>,
    pub rot: Option<Vec<String>>,
}

/// The contents of a pose file.
pub struct VpdPose {
    pub model_name: String,
    pub bones: Vec<VpdBone>,
}

/// The value of a [`VpdBone`].
pub struct SpecVpdBone {
    pub name: Seq<char>,
    pub trans: Option<Seq<Seq<char>>>,
    pub rot: Option<Seq<Seq<char>>>,
}

/// The value of a [`VpdPose`].
pub struct SpecVpdPose {
    pub model_name: Seq<char>,
    pub bones: Seq<SpecVpdBone>,
}

/// The texts of an optional list of strings.
pub open spec fn optional_texts(o: Option<Vec<String>>) -> Option<Seq<Seq<char>>> {
    match o {
        Some(v) => Some(views(v@)),
        None => None,
    }
}

impl View for VpdBone {
    type V = SpecVpdBone;

    open spec fn view(&self) -> SpecVpdBone {
        SpecVpdBone { name: self.name@, trans: optional_texts(self.trans), rot: optional_texts(self.rot) }
    }
}

impl View for VpdPose {
    type V = SpecVpdPose;

    open spec fn view(&self) -> SpecVpdPose {
        SpecVpdPose { model_name: self.model_name@, bones: views(self.bones@) }
    }
}

/// The number fields of a value token: its part before the first `;`,
/// split at every `,`.
pub open spec fn value_fields(token: Seq<char>) -> Seq<Seq<char>> {
    split(before_first(token, seq![';']), seq![','])
}

/// The bone of a bone section: its name is the part of the first token
/// after its first `{` (up to a second one), the position is the second
/// token and the rotation the sixth; a first token without `{` is malformed.
pub open spec fn spec_vpd_bone(section: Seq<char>) -> Result<SpecVpdBone, ReadError> {
    let toks = ws_tokens(section);
    if toks.len() > 0 && split(toks[0], seq!['{']).len() < 2 {
        Err(ReadError::Malformed)
    } else {
        Ok(
            SpecVpdBone {
                name: if toks.len() > 0 {
                    split(toks[0], seq!['{'])[1]
                } else {
                    Seq::empty()
                },
                trans: if toks.len() > 1 {
                    Some(value_fields(toks[1]))
                } else {
                    None
                },
                rot: if toks.len() > 5 {
                    Some(value_fields(toks[5]))
                } else {
                    None
                },
            },
        )
    }
}

/// The bones of the bone sections, in order; the first malformed one decides
/// the error.
pub open spec fn spec_vpd_bones(sections: Seq<Seq<char>>) -> Result<Seq<SpecVpdBone>, ReadError>
    decreases sections.len(),
{
    if sections.len() == 0 {
        Ok(Seq::empty())
    } else {
        match spec_vpd_bones(sections.drop_last()) {
            Err(e) => Err(e),
            Ok(prev) => match spec_vpd_bone(sections.last()) {
                Err(e) => Err(e),
                Ok(b) => Ok(prev.push(b)),
            },
        }
    }
}

/// The contents of a pose file: its bytes decoded as Windows-31J, trimmed
/// and split into sections at blank lines; the first section must be
/// [`VPD_HEADER`], the second holds the model name (up to `.osm;`), and
/// every further one is a bone.
pub open spec fn spec_parse_vpd(raw: Seq<u8>) -> Result<SpecVpdPose, ReadError> {
    let sections = split(trim(windows_31j_decode(raw)), section_separator());
    if sections[0] != VPD_HEADER@ {
        Err(ReadError::InvalidHeader)
    } else {
        match spec_vpd_bones(
            if sections.len() > 2 {
                sections.skip(2)
            } else {
                Seq::empty()
            },
        ) {
            Err(e) => Err(e),
            Ok(bones) => Ok(
                SpecVpdPose {
                    model_name: if sections.len() > 1 {
                        before_first(sections[1], model_name_end())
                    } else {
                        Seq::empty()
                    },
                    bones,
                },
            ),
        }
    }
}

/// Whether two character vectors are equal.
fn chars_equal(a: &Vec<char>, b: &Vec<char>) -> (r: bool)
    ensures
        r == (a@ == b@),
{
    if a.len() != b.len() {
        return false;
    }
    let mut i: usize = 0;
    while i < a.len()
        invariant
            a@.len() == b@.len(),
            i <= a@.len(),
            forall|k: int| 0 <= k < i ==> a@[k] == b@[k],
        decreases a@.len() - i,
    {
        if a[i] != b[i] {
            return false;
        }
        i = i + 1;
    }
    assert(a@ =~= b@);
    true
}

/// The strings of character vectors.
fn strings_of(v: &Vec<Vec<char>>) -> (r: Vec<String>)
    ensures
        views(r@) == views(v@),
{
    let mut r: Vec<String> = Vec::new();
    let mut i: usize = 0;
    while i < v.len()
        invariant
            i <= v@.len(),
            views(r@) == views(v@).take(i as int),
        decreases v@.len() - i,
    {
        let ghost before = views(r@);
        let t = string_of(&v[i]);
        r.push(t);
        assert(views(r@) =~= before.push(t@));
        assert(views(v@)[i as int] == v@[i as int]@);
        i = i + 1;
        assert(views(r@) =~= views(v@).take(i as int));
    }
    assert(views(v@).take(v@.len() as int) =~= views(v@));
    r
}

/// The number fields of a value token.
fn value_field_strings(token: &Vec<char>) -> (r: Vec<String>)
    ensures
        views(r@) == value_fields(token@),
{
    let semicolon = vec![';'];
    let comma = vec![','];
    assert(semicolon@ =~= seq![';']);
    assert(comma@ =~= seq![',']);
    let parts = split_chars(token, &semicolon);
    let fields = split_chars(&parts[0], &comma);
    strings_of(&fields)
}

/// Reads the bone of one bone section.
pub fn parse_vpd_bone(section: &Vec<char>) -> (res: Result<VpdBone, ReadError>)
    ensures
        match spec_vpd_bone(section@) {
            Ok(b) => res matches Ok(x) && x@ == b,
            Err(e) => res matches Err(e2) && e2 == e,
        },
{
    let toks = split_whitespace_chars(section);
    let brace = vec!['{'];
    assert(brace@ =~= seq!['{']);
    let mut name = String::new();
    if toks.len() > 0 {
        let pieces = split_chars(&toks[0], &brace);
        if pieces.len() < 2 {
            return Err(ReadError::Malformed);
        }
        name = string_of(&pieces[1]);
    }
    let trans = if toks.len() > 1 {
        Some(value_field_strings(&toks[1]))
    } else {
        None
    };
    let rot = if toks.len() > 5 {
        Some(value_field_strings(&toks[5]))
    } else {
        None
    };
    Ok(VpdBone { name, trans, rot })
}

/// Reads the contents of a pose file, which must start with
/// [`VPD_HEADER`] and name every bone as `name{...`.
pub fn parse_vpd(raw: &[u8]) -> (pose: VpdPose)
    requires
        spec_parse_vpd(raw@) is Ok,
    ensures
        pose@ == spec_parse_vpd(raw@)->Ok_0,
{
    match try_parse_vpd(raw) {
        Ok(p) => p,
        Err(_) => unreached(),
    }
}

/// Reads the contents of a pose file, or reports a wrong header or a bone
/// name token without `{`.
pub fn try_parse_vpd(raw: &[u8]) -> (res: Result<VpdPose, ReadError>)
    ensures
        match spec_parse_vpd(raw@) {
            Ok(p) => res matches Ok(x) && x@ == p,
            Err(e) => res matches Err(e2) && e2 == e,
        },
{
    let content = decode_windows_31j(raw);
    let chars = chars_of(content.as_str());
    let trimmed = trim_chars(&chars);
    let separator = vec!['\r', '\n', '\r', '\n'];
    assert(separator@ =~= section_separator());
    let sections = split_chars(&trimmed, &separator);
    let header = chars_of(VPD_HEADER);
    if !chars_equal(&sections[0], &header) {
        return Err(ReadError::InvalidHeader);
    }
    let mut model_name = String::new();
    if sections.len() > 1 {
        let name_end = vec!['.', 'o', 's', 'm', ';'];
        assert(name_end@ =~= model_name_end());
        let parts = split_chars(&sections[1], &name_end);
        model_name = string_of(&parts[0]);
    }
    let ghost secs = views(sections@);
    let ghost bone_secs = if secs.len() > 2 {
        secs.skip(2)
    } else {
        Seq::empty()
    };
    let mut bones: Vec<VpdBone> = Vec::new();
    let mut i: usize = 2;
    assert(bone_secs.take(0) =~= Seq::<Seq<char>>::empty());
    assert(views(bones@) =~= Seq::<SpecVpdBone>::empty());
    while i < sections.len()
        invariant
            2 <= i,
            secs == views(sections@),
            secs == split(trim(windows_31j_decode(raw@)), section_separator()),
            secs[0] == VPD_HEADER@,
            model_name@ == (if secs.len() > 1 {
                before_first(secs[1], model_name_end())
            } else {
                Seq::empty()
            }),
            secs.len() <= 2 ==> bones@.len() == 0,
            bone_secs == (if secs.len() > 2 {
                secs.skip(2)
            } else {
                Seq::empty()
            }),
            i <= secs.len() || secs.len() <= 2,
            secs.len() > 2 ==> spec_vpd_bones(bone_secs.take(i - 2)) == Ok::<Seq<SpecVpdBone>, ReadError>(views(bones@)),
        decreases sections@.len() - i,
    {
        let ghost prev = views(bones@);
        assert(bone_secs.take(i - 1).drop_last() =~= bone_secs.take(i - 2));
        assert(bone_secs.take(i - 1).last() == secs[i as int]);
        let bone = match parse_vpd_bone(&sections[i]) {
            Ok(b) => b,
            Err(e) => {
                proof {
                    lemma_vpd_bones_err(bone_secs, i - 1);
                }
                return Err(e);
            },
        };
        bones.push(bone);
        assert(views(bones@) =~= prev.push(bone@));
        i = i + 1;
    }
    proof {
        if secs.len() > 2 {
            assert(bone_secs.take(secs.len() - 2) =~= bone_secs);
        } else {
            assert(views(bones@) =~= Seq::<SpecVpdBone>::empty());
        }
    }
    Ok(VpdPose { model_name, bones })
}

proof fn lemma_vpd_bones_err(sections: Seq<Seq<char>>, k: int)
    requires
        0 <= k <= sections.len(),
        spec_vpd_bones(sections.take(k)) is Err,
    ensures
        spec_vpd_bones(sections) == spec_vpd_bones(sections.take(k)),
    decreases sections.len(),
{
    if k == sections.len() {
        assert(sections.take(k) =~= sections);
    } else {
        assert(sections.drop_last().take(k) =~= sections.take(k));
        lemma_vpd_bones_err(sections.drop_last(), k);
    }
}

/// The keyframe that a pose file gives a bone: at frame 0, with the given
/// position and rotation (binary32 bit patterns) and no interpolation.
pub fn vpd_bone_keyframe(name: String, trans: [u32; 3], rot: [u32; 4]) -> (k: BoneKeyframe)
    ensures
        k.name@ == name@,
        k.frame == 0,
        k.trans == trans,
        k.rot == rot,
        k.txc@ == seq![0u8, 0u8, 0u8, 0u8],
        k.tyc@ == seq![0u8, 0u8, 0u8, 0u8],
        k.tzc@ == seq![0u8, 0u8, 0u8, 0u8],
        k.rc@ == seq![0u8, 0u8, 0u8, 0u8],
{
    let k = BoneKeyframe {
        name,
        frame: 0,
        trans,
        rot,
        txc: [0u8; 4],
        tyc: [0u8; 4],
        tzc: [0u8; 4],
        rc: [0u8; 4],
    };
    assert(k.txc@ =~= seq![0u8, 0u8, 0u8, 0u8]);
    assert(k.tyc@ =~= seq![0u8, 0u8, 0u8, 0u8]);
    assert(k.tzc@ =~= seq![0u8, 0u8, 0u8, 0u8]);
    assert(k.rc@ =~= seq![0u8, 0u8, 0u8, 0u8]);
    k
}


proof fn lemma_find_name_end(s: Seq<char>, name: Seq<char>, rest: Seq<char>, i: int)
    requires
        s == name + seq!['.', 'o', 's', 'm', ';'] + rest,
        forall|j: int| 0 <= j && j + 5 <= name.len() ==> #[trigger] name.subrange(j, j + 5) != seq!['.', 'o', 's', 'm', ';'],
        0 <= i <= name.len(),
    ensures
        find_from(s, seq!['.', 'o', 's', 'm', ';'], i) == name.len(),
    decreases name.len() - i,
{
    let pat = seq!['.', 'o', 's', 'm', ';'];
    if i == name.len() {
        assert(s.subrange(i, i + 5) =~= pat);
    } else {
        assert(!match_at(s, pat, i)) by {
            if i + 5 <= name.len() {
                assert(s.subrange(i, i + 5) =~= name.subrange(i, i + 5));
            } else {
                let d = name.len() - i;
                assert(s[name.len() as int] == '.');
                if s.subrange(i, i + 5) == pat {
                    assert(s.subrange(i, i + 5)[d] == s[name.len() as int]);
                }
            }
        }
        lemma_find_name_end(s, name, rest, i + 1);
    }
}

/// The model name of a pose file is all of its second section before the
/// first `.osm;`, whatever other characters (dots included) it holds.
pub proof fn law_vpd_model_name(raw: Seq<u8>, name: Seq<char>, rest: Seq<char>)
    requires
        spec_parse_vpd(raw) is Ok,
        split(trim(windows_31j_decode(raw)), seq!['\r', '\n', '\r', '\n']).len() > 1,
        split(trim(windows_31j_decode(raw)), seq!['\r', '\n', '\r', '\n'])[1] == name + seq!['.', 'o', 's', 'm', ';']
            + rest,
        forall|j: int| 0 <= j && j + 5 <= name.len() ==> #[trigger] name.subrange(j, j + 5) != seq!['.', 'o', 's', 'm', ';'],
    ensures
        spec_parse_vpd(raw)->Ok_0.model_name == name,
{
    let pat = seq!['.', 'o', 's', 'm', ';'];
    assert(section_separator() =~= seq!['\r', '\n', '\r', '\n']);
    assert(model_name_end() =~= pat);
    let sec = name + pat + rest;
    lemma_find_name_end(sec, name, rest, 0);
    assert(sec.subrange(0, name.len() as int) =~= name);
    assert(split(sec, pat)[0] == name);
}


proof fn lemma_find_shift(x: Seq<char>, y: Seq<char>, pat: Seq<char>, i: int)
    requires
        0 <= i,
    ensures
        find_from(x + y, pat, x.len() + i) == (if find_from(y, pat, i) < 0 {
            -1
        } else {
            x.len() + find_from(y, pat, i)
        }),
    decreases y.len() + 1 - i,
{
    let s = x + y;
    let j = x.len() + i;
    if !(i + pat.len() > y.len()) {
        assert(s.subrange(j, j + pat.len()) =~= y.subrange(i, i + pat.len()));
        if !match_at(y, pat, i) {
            lemma_find_shift(x, y, pat, i + 1);
        }
    }
}

proof fn lemma_split_shift(x: Seq<char>, y: Seq<char>, pat: Seq<char>, i: int)
    requires
        pat.len() > 0,
        0 <= i <= y.len(),
    ensures
        split_from(x + y, pat, x.len() + i) == split_from(y, pat, i),
    decreases y.len() + 1 - i,
{
    let s = x + y;
    lemma_find_shift(x, y, pat, i);
    lemma_find_from(y, pat, i);
    let k = find_from(y, pat, i);
    if k < 0 {
        assert(s.subrange(x.len() + i, s.len() as int) =~= y.subrange(i, y.len() as int));
    } else {
        assert(s.subrange(x.len() + i, x.len() + k) =~= y.subrange(i, k));
        lemma_split_shift(x, y, pat, k + pat.len());
        assert(x.len() + k + pat.len() == x.len() + (k + pat.len()));
    }
}

proof fn lemma_find_char_none(s: Seq<char>, c: char, i: int)
    requires
        0 <= i,
        !s.contains(c),
    ensures
        find_from(s, seq![c], i) == -1,
    decreases s.len() + 1 - i,
{
    if i + 1 <= s.len() {
        if s.subrange(i, i + 1) == seq![c] {
            assert(s.subrange(i, i + 1)[0] == s[i]);
        }
        lemma_find_char_none(s, c, i + 1);
    }
}

proof fn lemma_find_char_first(a: Seq<char>, c: char, rest: Seq<char>, i: int)
    requires
        0 <= i <= a.len(),
        !a.contains(c),
    ensures
        find_from(a + seq![c] + rest, seq![c], i) == a.len(),
    decreases a.len() - i,
{
    let s = a + seq![c] + rest;
    if i == a.len() {
        assert(s.subrange(i, i + 1) =~= seq![c]);
    } else {
        if s.subrange(i, i + 1) == seq![c] {
            assert(s.subrange(i, i + 1)[0] == a[i]);
        }
        lemma_find_char_first(a, c, rest, i + 1);
    }
}

/// Splitting at a character: a piece without it, the character, and the
/// rest split at it.
proof fn lemma_split_char(a: Seq<char>, c: char, rest: Seq<char>)
    requires
        !a.contains(c),
    ensures
        split(a + seq![c] + rest, seq![c]) == seq![a] + split(rest, seq![c]),
{
    let s = a + seq![c] + rest;
    lemma_find_char_first(a, c, rest, 0);
    assert(s.subrange(0, a.len() as int) =~= a);
    lemma_split_shift(a + seq![c], rest, seq![c], 0);
}

/// A text without the character splits into itself.
proof fn lemma_split_char_none(a: Seq<char>, c: char)
    requires
        !a.contains(c),
    ensures
        split(a, seq![c]) == seq![a],
{
    lemma_find_char_none(a, c, 0);
    assert(a.subrange(0, a.len() as int) =~= a);
}

/// The name of a bone is what follows the `{` of the first token of its
/// section (for a token `before{name` with no other `{`).
pub proof fn law_vpd_bone_name(section: Seq<char>, before: Seq<char>, name: Seq<char>)
    requires
        ws_tokens(section).len() > 0,
        ws_tokens(section)[0] == before + seq!['{'] + name,
        !before.contains('{'),
        !name.contains('{'),
    ensures
        spec_vpd_bone(section) is Ok,
        spec_vpd_bone(section)->Ok_0.name == name,
{
    lemma_split_char(before, '{', name);
    lemma_split_char_none(name, '{');
}

/// The number fields of a value token `x,y,z;rest` (fields without `,` or
/// `;`) are `x`, `y` and `z`.
pub proof fn law_value_fields_three(x: Seq<char>, y: Seq<char>, z: Seq<char>, rest: Seq<char>)
    requires
        !x.contains(',') && !x.contains(';'),
        !y.contains(',') && !y.contains(';'),
        !z.contains(',') && !z.contains(';'),
    ensures
        value_fields(x + seq![','] + y + seq![','] + z + seq![';'] + rest) == seq![x, y, z],
{
    let f = x + seq![','] + y + seq![','] + z;
    assert(!f.contains(';')) by {
        if f.contains(';') {
            let i = choose|i: int| 0 <= i < f.len() && f[i] == ';';
            if i < x.len() {
                assert(x[i] == ';');
            } else if i == x.len() {
            } else if i < x.len() + 1 + y.len() {
                assert(y[i - x.len() - 1] == ';');
            } else if i == x.len() + 1 + y.len() {
            } else {
                assert(z[i - x.len() - 2 - y.len()] == ';');
            }
        }
    }
    lemma_split_char(f, ';', rest);
    assert(x + seq![','] + (y + seq![','] + z) =~= f);
    lemma_split_char(x, ',', y + seq![','] + z);
    lemma_split_char(y, ',', z);
    lemma_split_char_none(z, ',');
    assert(seq![x] + (seq![y] + seq![z]) =~= seq![x, y, z]);
}

/// The position of a bone is given by the second token of its section and
/// its rotation by the sixth: with a second token `x,y,z;...` the position
/// fields are `x`, `y`, `z`, and with a sixth token `a,b,c,d;...` the
/// rotation fields are `a`, `b`, `c`, `d`.
pub proof fn law_vpd_bone_values(
    section: Seq<char>,
    t: Seq<Seq<char>>,
    r: Seq<Seq<char>>,
    trest: Seq<char>,
    rrest: Seq<char>,
)
    requires
        spec_vpd_bone(section) is Ok,
        ws_tokens(section).len() > 5,
        t.len() == 3,
        r.len() == 4,
        forall|i: int| 0 <= i < 3 ==> !(#[trigger] t[i]).contains(',') && !t[i].contains(';'),
        forall|i: int| 0 <= i < 4 ==> !(#[trigger] r[i]).contains(',') && !r[i].contains(';'),
        ws_tokens(section)[1] == t[0] + seq![','] + t[1] + seq![','] + t[2] + seq![';'] + trest,
        ws_tokens(section)[5] == r[0] + seq![','] + r[1] + seq![','] + r[2] + seq![','] + r[3] + seq![';'] + rrest,
    ensures
        spec_vpd_bone(section)->Ok_0.trans == Some(t),
        spec_vpd_bone(section)->Ok_0.rot == Some(r),
{
    assert(!t[0].contains(',') && !t[1].contains(',') && !t[2].contains(','));
    assert(!t[0].contains(';') && !t[1].contains(';') && !t[2].contains(';'));
    law_value_fields_three(t[0], t[1], t[2], trest);
    assert(seq![t[0], t[1], t[2]] =~= t);
    assert(!r[0].contains(',') && !r[1].contains(',') && !r[2].contains(',') && !r[3].contains(','));
    assert(!r[0].contains(';') && !r[1].contains(';') && !r[2].contains(';') && !r[3].contains(';'));
    let g = r[1] + seq![','] + r[2] + seq![','] + r[3];
    assert(!g.contains(';')) by {
        if g.contains(';') {
            let i = choose|i: int| 0 <= i < g.len() && g[i] == ';';
            if i < r[1].len() {
                assert(r[1][i] == ';');
            } else if i == r[1].len() {
            } else if i < r[1].len() + 1 + r[2].len() {
                assert(r[2][i - r[1].len() - 1] == ';');
            } else if i == r[1].len() + 1 + r[2].len() {
            } else {
                assert(r[3][i - r[1].len() - 2 - r[2].len()] == ';');
            }
        }
    }
    let f = r[0] + seq![','] + g;
    assert(!f.contains(';')) by {
        if f.contains(';') {
            let i = choose|i: int| 0 <= i < f.len() && f[i] == ';';
            if i < r[0].len() {
                assert(r[0][i] == ';');
            } else if i > r[0].len() {
                assert(g[i - r[0].len() - 1] == ';');
            }
        }
    }
    assert(ws_tokens(section)[5] == f + seq![';'] + rrest) by {
        assert(r[0] + seq![','] + r[1] + seq![','] + r[2] + seq![','] + r[3] + seq![';'] + rrest =~= f + seq![';']
            + rrest);
    }
    lemma_split_char(f, ';', rrest);
    lemma_split_char(r[0], ',', g);
    lemma_split_char(r[1], ',', r[2] + seq![','] + r[3]);
    assert(g =~= r[1] + seq![','] + (r[2] + seq![','] + r[3]));
    lemma_split_char(r[2], ',', r[3]);
    lemma_split_char_none(r[3], ',');
    assert(seq![r[0]] + (seq![r[1]] + (seq![r[2]] + seq![r[3]])) =~= r);
}


proof fn lemma_vpd_bones_shape(sections: Seq<Seq<char>>)
    requires
        spec_vpd_bones(sections) is Ok,
    ensures
        spec_vpd_bones(sections)->Ok_0.len() == sections.len(),
        forall|i: int|
            0 <= i < sections.len() ==> spec_vpd_bone(#[trigger] sections[i]) is Ok && spec_vpd_bones(
                sections,
            )->Ok_0[i] == spec_vpd_bone(sections[i])->Ok_0,
    decreases sections.len(),
{
    if sections.len() > 0 {
        lemma_vpd_bones_shape(sections.drop_last());
        assert forall|i: int| 0 <= i < sections.len() implies spec_vpd_bone(#[trigger] sections[i]) is Ok
            && spec_vpd_bones(sections)->Ok_0[i] == spec_vpd_bone(sections[i])->Ok_0 by {
            if i < sections.len() - 1 {
                assert(sections.drop_last()[i] == sections[i]);
            }
        }
    }
}

/// A pose file is read only when its first section (after trimming and
/// splitting at blank lines) is exactly [`VPD_HEADER`]; otherwise it is
/// refused as having an invalid header. Once read, it has one bone per
/// section after the second, in order, each read from its own section.
pub proof fn law_vpd_sections(raw: Seq<u8>)
    ensures
        split(trim(windows_31j_decode(raw)), seq!['\r', '\n', '\r', '\n'])[0] != VPD_HEADER@ ==> spec_parse_vpd(raw)
            == Err::<SpecVpdPose, ReadError>(ReadError::InvalidHeader),
        spec_parse_vpd(raw) is Ok ==> ({
            let sections = split(trim(windows_31j_decode(raw)), seq!['\r', '\n', '\r', '\n']);
            &&& sections[0] == VPD_HEADER@
            &&& spec_parse_vpd(raw)->Ok_0.bones.len() == (if sections.len() > 2 {
                sections.len() - 2
            } else {
                0
            })
            &&& forall|i: int|
                0 <= i < spec_parse_vpd(raw)->Ok_0.bones.len() ==> spec_parse_vpd(raw)->Ok_0.bones[i]
                    == #[trigger] spec_vpd_bone(sections[i + 2])->Ok_0
        }),
{
    assert(section_separator() =~= seq!['\r', '\n', '\r', '\n']);
    let sections = split(trim(windows_31j_decode(raw)), section_separator());
    if spec_parse_vpd(raw) is Ok {
        let rest = if sections.len() > 2 {
            sections.skip(2)
        } else {
            Seq::empty()
        };
        lemma_vpd_bones_shape(rest);
        assert forall|i: int| 0 <= i < spec_parse_vpd(raw)->Ok_0.bones.len() implies spec_parse_vpd(raw)->Ok_0.bones[i]
            == #[trigger] spec_vpd_bone(sections[i + 2])->Ok_0 by {
            assert(rest[i] == sections[i + 2]);
        }
    }
}

} // verus!
