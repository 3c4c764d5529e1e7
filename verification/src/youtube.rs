//! Track metadata from YouTube Music links.
use vstd::prelude::*;

use crate::api_error::ApiError;
use crate::text::{
    all_blank, ascii_lower, blank, chars_of, ends_with, has_part, is_at, is_part, is_suffix,
    key_chars, key_of, law_parts_are_cut_out, law_trimming_takes_white_space_from_both_ends,
    lemma_trimmed_len, lower_all, lowered, occurs_at, string_of, to_ascii_lower, trim, trimmed,
};

verus! {

/// Position of the last opening parenthesis.
pub open spec fn last_open(s: Seq<char>) -> Option<int>
    decreases s.len(),
{
    if s.len() == 0 {
        None
    } else if s.last() == '(' {
        Some(s.len() - 1)
    } else {
        last_open(s.drop_last())
    }
}

pub proof fn lemma_last_open(s: Seq<char>)
    ensures
        last_open(s) is Some ==> 0 <= last_open(s)->0 < s.len(),
        last_open(s) is Some && s.last() == ')' ==> last_open(s)->0 < s.len() - 1,
    decreases s.len(),
{
    if s.len() > 0 && s.last() != '(' {
        lemma_last_open(s.drop_last());
    }
}

/// A qualifier that says how a track is presented, not what it is.
pub open spec fn is_presentation(qualifier: Seq<char>) -> bool {
    let q = lowered(qualifier);
    has_part(q, "official"@) || has_part(q, "video"@) || has_part(q, "audio"@) || has_part(
        q,
        "lyric"@,
    ) || has_part(q, "visualizer"@) || has_part(q, "remaster"@) || has_part(q, "4k"@)
}

/// Without trailing presentation qualifiers in parentheses.
pub open spec fn without_qualifiers(s: Seq<char>) -> Seq<char>
    decreases s.len(),
{
    match last_open(s) {
        Some(open) => if s.last() == ')' && is_presentation(s.subrange(open + 1, s.len() - 1)) {
            proof {
                lemma_last_open(s);
                lemma_trimmed_len(s.take(open));
            }
            without_qualifiers(trimmed(s.take(open)))
        } else {
            s
        },
        None => s,
    }
}

/// `prefix` starts `s`, ASCII case aside.
pub open spec fn starts_ignoring_case(s: Seq<char>, prefix: Seq<char>) -> bool {
    s.len() >= prefix.len() && lowered(s.take(prefix.len() as int)) == lowered(prefix)
}

/// The track title in a video title: the artist's name in front and
/// presentation qualifiers behind are dropped. What would leave nothing
/// leaves the title as it is.
pub open spec fn cleaned_title(raw: Seq<char>, artist: Seq<char>) -> Seq<char> {
    let prefix = trimmed(artist) + " - "@;
    let title = trimmed(raw);
    let bare = if starts_ignoring_case(title, prefix) {
        trimmed(title.skip(prefix.len() as int))
    } else {
        title
    };
    if without_qualifiers(bare).len() == 0 {
        title
    } else {
        without_qualifiers(bare)
    }
}

fn find_last_open(s: &[char]) -> (r: Option<usize>)
    ensures
        match r {
            Some(i) => last_open(s@) == Some(i as int),
            None => last_open(s@) is None,
        },
{
    let mut i: usize = s.len();
    assert(s@.take(i as int) =~= s@);
    while i > 0
        invariant
            i <= s.len(),
            last_open(s@) == last_open(s@.take(i as int)),
        decreases i,
    {
        if s[i - 1] == '(' {
            return Some(i - 1);
        }
        assert(s@.take(i as int).drop_last() =~= s@.take(i - 1));
        i = i - 1;
    }
    None
}

fn is_presentation_qualifier(qualifier: &[char]) -> (r: bool)
    ensures
        r == is_presentation(qualifier@),
{
    let q: Vec<char> = lower_all(qualifier);
    is_part(&q, &chars_of("official")) || is_part(&q, &chars_of("video")) || is_part(
        &q,
        &chars_of("audio"),
    ) || is_part(&q, &chars_of("lyric")) || is_part(&q, &chars_of("visualizer")) || is_part(
        &q,
        &chars_of("remaster"),
    ) || is_part(&q, &chars_of("4k"))
}

fn strip_qualifiers(s: &[char]) -> (out: &[char])
    ensures
        out@ == without_qualifiers(s@),
    decreases s.len(),
{
    match find_last_open(s) {
        Some(open) => {
            proof {
                lemma_last_open(s@);
                lemma_trimmed_len(s@.take(open as int));
            }
            if s[s.len() - 1] == ')' && is_presentation_qualifier(&s[open + 1..s.len() - 1]) {
                let head: &[char] = &s[0..open];
                assert(head@ =~= s@.take(open as int));
                let rest: &[char] = trim(head);
                strip_qualifiers(rest)
            } else {
                s
            }
        },
        None => s,
    }
}

fn has_prefix_ignoring_case(s: &[char], prefix: &[char]) -> (r: bool)
    ensures
        r == starts_ignoring_case(s@, prefix@),
{
    if s.len() < prefix.len() {
        return false;
    }
    let mut i: usize = 0;
    while i < prefix.len()
        invariant
            i <= prefix.len() <= s.len(),
            forall|k: int| 0 <= k < i ==> ascii_lower(#[trigger] s[k]) == ascii_lower(prefix[k]),
        decreases prefix.len() - i,
    {
        if to_ascii_lower(s[i]) != to_ascii_lower(prefix[i]) {
            assert(lowered(s@.take(prefix.len() as int))[i as int] != lowered(prefix@)[i as int]);
            return false;
        }
        i = i + 1;
    }
    assert(lowered(s@.take(prefix.len() as int)) =~= lowered(prefix@));
    true
}

/// The track title in a video title.
pub fn clean_youtube_title(raw: &str, artist: &str) -> (out: String)
    ensures
        out@ == cleaned_title(raw@, artist@),
{
    let raw_chars: Vec<char> = chars_of(raw);
    let title: &[char] = trim(&raw_chars);
    let artist_chars: Vec<char> = chars_of(artist);
    let name: &[char] = trim(&artist_chars);
    let mut prefix: Vec<char> = Vec::new();
    let mut i: usize = 0;
    while i < name.len()
        invariant
            i <= name.len(),
            prefix@ == name@.take(i as int),
        decreases name.len() - i,
    {
        prefix.push(name[i]);
        assert(name@.take(i + 1) =~= name@.take(i as int).push(name[i as int]));
        i = i + 1;
    }
    assert(name@.take(i as int) =~= name@);
    let mut dash: Vec<char> = chars_of(" - ");
    prefix.append(&mut dash);
    let bare: &[char] = if has_prefix_ignoring_case(title, &prefix) {
        let rest: &[char] = &title[prefix.len()..title.len()];
        assert(rest@ =~= title@.skip(prefix.len() as int));
        trim(rest)
    } else {
        title
    };
    let cleaned: &[char] = strip_qualifiers(bare);
    if cleaned.len() == 0 {
        string_of(title)
    } else {
        string_of(cleaned)
    }
}

/// The artist in a channel name: the suffix of automatic channels is dropped.
pub open spec fn cleaned_artist(raw: Seq<char>) -> Seq<char> {
    let name = trimmed(raw);
    let suffix = " - Topic"@;
    if ends_with(name, suffix) {
        trimmed(name.take(name.len() - suffix.len()))
    } else {
        trimmed(name)
    }
}

/// The artist in a channel name.
pub fn clean_youtube_artist(raw: &str) -> (out: String)
    ensures
        out@ == cleaned_artist(raw@),
{
    let raw_chars: Vec<char> = chars_of(raw);
    let name: &[char] = trim(&raw_chars);
    let suffix: Vec<char> = chars_of(" - Topic");
    if is_suffix(name, &suffix) {
        let head: &[char] = &name[0..name.len() - suffix.len()];
        assert(head@ =~= name@.take(name.len() - suffix.len()));
        string_of(trim(head))
    } else {
        string_of(trim(name))
    }
}

/// The key by which titles and artists are compared: letters and digits, in
/// lowercase.
pub fn metadata_key(value: &str) -> (key: String)
    ensures
        key@ == key_of(value@),
{
    string_of(&key_chars(value))
}

/// One track of a store search.
#[derive(Debug)]
pub struct ItunesTrack {
    pub track_name: String,
    pub artist_name: String,
    pub artwork_url100: String,
}

/// The track is the one looked for.
pub open spec fn is_exact(track: ItunesTrack, title: Seq<char>, artist: Seq<char>) -> bool {
    key_of(track.track_name@) == key_of(title) && key_of(track.artist_name@) == key_of(artist)
}

/// Every occurrence of `from`, left to right and without overlap, replaced by
/// `to`.
pub open spec fn replaced(s: Seq<char>, from: Seq<char>, to: Seq<char>) -> Seq<char>
    decreases s.len(),
{
    if s.len() == 0 || from.len() == 0 {
        s
    } else if occurs_at(s, from, 0) {
        to + replaced(s.skip(from.len() as int), from, to)
    } else {
        seq![s[0]] + replaced(s.skip(1), from, to)
    }
}

fn replace_all(s: &[char], from: &[char], to: &[char]) -> (out: Vec<char>)
    requires
        from.len() > 0,
    ensures
        out@ == replaced(s@, from@, to@),
{
    let mut out: Vec<char> = Vec::new();
    let mut i: usize = 0;
    assert(s@.skip(0) =~= s@);
    assert(replaced(s@, from@, to@) =~= out@ + replaced(s@.skip(0), from@, to@));
    while i < s.len()
        invariant
            i <= s.len(),
            from.len() > 0,
            replaced(s@, from@, to@) == out@ + replaced(s@.skip(i as int), from@, to@),
        decreases s.len() - i,
    {
        let ghost rest = s@.skip(i as int);
        let ghost before = out@;
        assert(occurs_at(s@, from@, i as int) <==> occurs_at(rest, from@, 0)) by {
            if i + from.len() <= s.len() {
                assert(rest.subrange(0, from.len() as int) =~= s@.subrange(
                    i as int,
                    i + from.len(),
                ));
            }
        }
        if is_at(s, from, i) {
            let mut k: usize = 0;
            while k < to.len()
                invariant
                    k <= to.len(),
                    out@ == before + to@.take(k as int),
                decreases to.len() - k,
            {
                out.push(to[k]);
                assert(to@.take(k + 1) =~= to@.take(k as int).push(to[k as int]));
                k = k + 1;
            }
            assert(to@.take(k as int) =~= to@);
            assert(rest.skip(from.len() as int) =~= s@.skip(i + from.len()));
            assert(out@ + replaced(s@.skip(i + from.len()), from@, to@) =~= before + (to@
                + replaced(s@.skip(i + from.len()), from@, to@)));
            i = i + from.len();
        } else {
            out.push(s[i]);
            assert(rest.skip(1) =~= s@.skip(i + 1));
            assert(out@ + replaced(s@.skip(i + 1), from@, to@) =~= before + (seq![rest[0]]
                + replaced(s@.skip(i + 1), from@, to@)));
            i = i + 1;
        }
    }
    assert(s@.skip(i as int) =~= Seq::<char>::empty());
    assert(out@ =~= out@ + replaced(s@.skip(i as int), from@, to@));
    out
}

fn same_chars(a: &[char], b: &[char]) -> (r: bool)
    ensures
        r == (a@ == b@),
{
    if a.len() != b.len() {
        return false;
    }
    let r: bool = is_at(a, b, 0);
    assert(a@.subrange(0, a.len() as int) =~= a@);
    r
}

/// Square artwork of the first track that matches title and artist exactly,
/// in the large size.
pub fn select_square_artwork(results: &Vec<ItunesTrack>, title: &str, artist: &str) -> (r: Option<
    String,
>)
    ensures
        match r {
            Some(url) => exists|i: int|
                {
                    &&& 0 <= i < results.len()
                    &&& #[trigger] is_exact(results[i], title@, artist@)
                    &&& forall|j: int|
                        0 <= j < i ==> !#[trigger] is_exact(results[j], title@, artist@)
                    &&& url@ == replaced(results[i].artwork_url100@, "100x100bb"@, "600x600bb"@)
                },
            None => forall|i: int|
                0 <= i < results.len() ==> !#[trigger] is_exact(results[i], title@, artist@),
        },
{
    let title_key: Vec<char> = key_chars(title);
    let artist_key: Vec<char> = key_chars(artist);
    let mut i: usize = 0;
    while i < results.len()
        invariant
            i <= results.len(),
            title_key@ == key_of(title@),
            artist_key@ == key_of(artist@),
            forall|j: int| 0 <= j < i ==> !#[trigger] is_exact(results[j], title@, artist@),
        decreases results.len() - i,
    {
        let track: &ItunesTrack = &results[i];
        if same_chars(&key_chars(track.track_name.as_str()), &title_key) && same_chars(
            &key_chars(track.artist_name.as_str()),
            &artist_key,
        ) {
            assert(is_exact(results[i as int], title@, artist@));
            proof {
                reveal_strlit("100x100bb");
            }
            let url: Vec<char> = chars_of(track.artwork_url100.as_str());
            let large: Vec<char> = replace_all(&url, &chars_of("100x100bb"), &chars_of("600x600bb"));
            return Some(string_of(&large));
        }
        assert(!is_exact(results[i as int], title@, artist@));
        i = i + 1;
    }
    None
}

/// What a link says, as plain values.
#[derive(Debug)]
pub struct LinkParts {
    pub scheme: String,
    pub host: Option<String>,
    /// Path segments; none where the link has no hierarchical path.
    pub path: Option<Vec<String>>,
    pub query: Vec<(String, String)>,
    /// The link, normalised.
    pub text: String,
}

/// A link as mathematical values.
pub struct LinkView {
    pub scheme: Seq<char>,
    pub host: Option<Seq<char>>,
    pub path: Option<Seq<Seq<char>>>,
    pub query: Seq<(Seq<char>, Seq<char>)>,
    pub text: Seq<char>,
}

impl View for LinkParts {
    type V = LinkView;

    open spec fn view(&self) -> LinkView {
        LinkView {
            scheme: self.scheme@,
            host: match self.host {
                Some(h) => Some(h@),
                None => None,
            },
            path: match self.path {
                Some(p) => Some(p@.map_values(|s: String| s@)),
                None => None,
            },
            query: self.query@.map_values(|kv: (String, String)| (kv.0@, kv.1@)),
            text: self.text@,
        }
    }
}

/// What `reqwest::Url::parse` makes of a text.
pub uninterp spec fn parsed_link(raw: Seq<char>) -> Option<LinkView>;

/// `reqwest::Url::parse` (the `url` crate): reads an absolute link. The result
/// depends on the text alone and is named, not spelled out; its scheme, host,
/// path segments, decoded query pairs and normalised text are handed over as
/// plain values. `None` stands for any parse error.
#[verifier::external_body]
fn parse_link(raw: &str) -> (r: Option<LinkParts>)
    ensures
        match r {
            Some(parts) => parsed_link(raw@) == Some(parts@),
            None => parsed_link(raw@) is None,
        },
{
    let url = reqwest::Url::parse(raw).ok()?;
    Some(LinkParts {
        scheme: url.scheme().to_string(),
        host: url.host_str().map(str::to_string),
        path: url.path_segments().map(|parts| parts.map(str::to_string).collect()),
        query: url.query_pairs().into_owned().collect(),
        text: url.to_string(),
    })
}

/// The host, in ASCII lowercase; empty where there is none.
pub open spec fn host_key(link: LinkView) -> Seq<char> {
    match link.host {
        Some(h) => lowered(h),
        None => Seq::empty(),
    }
}

/// The link carries a track id: the first path segment of a short link, the
/// `v` parameter of any other.
pub open spec fn has_track_id(link: LinkView) -> bool {
    if host_key(link) == "youtu.be"@ {
        link.path matches Some(parts) && parts.len() > 0 && parts[0].len() > 0
    } else {
        exists|i: int|
            0 <= i < link.query.len() && (#[trigger] link.query[i]).0 == "v"@
                && link.query[i].1.len() > 0
    }
}

pub open spec fn is_supported(link: LinkView) -> bool {
    let host = host_key(link);
    link.scheme == "https"@ && (host == "music.youtube.com"@ || host == "www.youtube.com"@ || host
        == "youtube.com"@ || host == "youtu.be"@)
}

/// What is wrong with a link, if anything.
pub open spec fn link_fault(link: LinkView) -> Option<ApiError> {
    if !is_supported(link) {
        Some(ApiError::UnsupportedLink)
    } else if !has_track_id(link) {
        Some(ApiError::NoTrackId)
    } else {
        None
    }
}

/// Check a parsed link: a secure link to a supported host, with a track id.
pub fn check_link(link: &LinkParts) -> (r: Result<(), ApiError>)
    ensures
        match r {
            Ok(()) => link_fault(link@) is None,
            Err(e) => link_fault(link@) == Some(e),
        },
{
    let host: Vec<char> = match &link.host {
        Some(h) => lower_all(&chars_of(h.as_str())),
        None => Vec::new(),
    };
    assert(host@ =~= host_key(link@));
    let short: bool = same_chars(&host, &chars_of("youtu.be"));
    let supported: bool = same_chars(&host, &chars_of("music.youtube.com")) || same_chars(
        &host,
        &chars_of("www.youtube.com"),
    ) || same_chars(&host, &chars_of("youtube.com")) || short;
    if !same_chars(&chars_of(link.scheme.as_str()), &chars_of("https")) || !supported {
        return Err(ApiError::UnsupportedLink);
    }
    let has_id: bool = if short {
        match &link.path {
            Some(parts) => {
                assert(link@.path->0.len() == parts.len());
                if parts.len() > 0 {
                    assert(link@.path->0[0] == parts[0]@);
                    parts[0].as_str().is_empty() == false
                } else {
                    false
                }
            },
            None => false,
        }
    } else {
        has_video_param(&link.query)
    };
    proof {
        let v = link@;
        assert(v.query.len() == link.query.len());
        assert forall|i: int| 0 <= i < v.query.len() implies #[trigger] v.query[i] == (
            link.query[i].0@,
            link.query[i].1@,
        ) by {}
        if !short && has_id {
            let i = choose|i: int|
                0 <= i < link.query.len() && (#[trigger] link.query[i]).0@ == "v"@
                    && link.query[i].1@.len() > 0;
            assert(v.query[i].0 == "v"@);
        }
        if !short && has_track_id(v) {
            let i = choose|i: int|
                0 <= i < v.query.len() && (#[trigger] v.query[i]).0 == "v"@ && v.query[i].1.len()
                    > 0;
            assert(link.query[i].0@ == "v"@);
        }
        assert(has_id == has_track_id(v));
    }
    if has_id {
        Ok(())
    } else {
        Err(ApiError::NoTrackId)
    }
}

fn has_video_param(query: &Vec<(String, String)>) -> (r: bool)
    ensures
        r == exists|i: int|
            0 <= i < query.len() && (#[trigger] query[i]).0@ == "v"@ && query[i].1@.len() > 0,
{
    let name: Vec<char> = chars_of("v");
    let mut i: usize = 0;
    while i < query.len()
        invariant
            i <= query.len(),
            name@ == "v"@,
            forall|j: int|
                0 <= j < i ==> !((#[trigger] query[j]).0@ == "v"@ && query[j].1@.len() > 0),
        decreases query.len() - i,
    {
        if same_chars(&chars_of(query[i].0.as_str()), &name) && !query[i].1.as_str().is_empty() {
            assert(query[i as int].0@ == "v"@);
            return true;
        }
        i = i + 1;
    }
    false
}

/// Constrain a link to tracks of supported sites; returns the normalised
/// link.
pub fn validate_youtube_music_url(raw: &str) -> (r: Result<String, ApiError>)
    ensures
        match parsed_link(trimmed(raw@)) {
            None => r == Err::<String, ApiError>(ApiError::InvalidLink),
            Some(link) => match link_fault(link) {
                Some(e) => r == Err::<String, ApiError>(e),
                None => r is Ok && r->Ok_0@ == link.text,
            },
        },
{
    let chars: Vec<char> = chars_of(raw);
    let bare: String = string_of(trim(&chars));
    match parse_link(bare.as_str()) {
        None => Err(ApiError::InvalidLink),
        Some(link) => match check_link(&link) {
            Ok(()) => Ok(link.text),
            Err(e) => Err(e),
        },
    }
}

// ---- laws ----

/// The two characters are the same ASCII letter, in whichever case, or the
/// same character.
pub open spec fn same_letter(x: char, y: char) -> bool {
    let (a, b) = (x as int, y as int);
    a == b || (65 <= a <= 90 && b == a + 32) || (65 <= b <= 90 && a == b + 32)
}

/// The texts agree, ASCII case aside.
pub open spec fn reads_as(s: Seq<char>, t: Seq<char>) -> bool {
    s.len() == t.len() && forall|i: int|
        0 <= i < s.len() ==> same_letter(#[trigger] s[i], t[i])
}

proof fn lemma_reads_as(s: Seq<char>, t: Seq<char>)
    ensures
        lowered(s) == lowered(t) <==> reads_as(s, t),
{
    if reads_as(s, t) {
        assert forall|i: int| 0 <= i < s.len() implies lowered(s)[i] == lowered(t)[i] by {
            lemma_same_letter(s[i], t[i]);
        }
        assert(lowered(s) =~= lowered(t));
    }
    if lowered(s) == lowered(t) {
        assert(lowered(s).len() == s.len() && lowered(t).len() == t.len());
        assert forall|i: int| 0 <= i < s.len() implies same_letter(#[trigger] s[i], t[i]) by {
            assert(lowered(s)[i] == ascii_lower(s[i]));
            assert(lowered(t)[i] == ascii_lower(t[i]));
            lemma_same_letter(s[i], t[i]);
        }
    }
}

proof fn lemma_same_letter(x: char, y: char)
    ensures
        ascii_lower(x) == ascii_lower(y) <==> same_letter(x, y),
{
    assert(ascii_lower(x) as int == x as int + if 65 <= x as int <= 90 {
        32int
    } else {
        0
    });
    assert(ascii_lower(y) as int == y as int + if 65 <= y as int <= 90 {
        32int
    } else {
        0
    });
}

/// A text without capitals is its own lowercase.
proof fn lemma_small(t: Seq<char>)
    requires
        forall|i: int| 0 <= i < t.len() ==> !(65 <= (#[trigger] t[i]) as int <= 90),
    ensures
        lowered(t) == t,
{
    assert(lowered(t) =~= t);
}

/// A link is taken exactly if it is secure, leads to one of the four hosts
/// (case aside) and names a track: a short link in its first path segment,
/// any other in a `v` parameter. Without the first two it is unsupported;
/// with them and without a track it has no track id.
pub proof fn law_links_lead_to_tracks(link: LinkView)
    ensures
        ({
            let short = link.host matches Some(h) && reads_as(h, "youtu.be"@);
            let long = link.host matches Some(h) && (reads_as(h, "music.youtube.com"@) || reads_as(
                h,
                "www.youtube.com"@,
            ) || reads_as(h, "youtube.com"@));
            let track = if short {
                link.path matches Some(p) && p.len() > 0 && p[0].len() > 0
            } else {
                exists|i: int|
                    0 <= i < link.query.len() && (#[trigger] link.query[i]).0 == "v"@
                        && link.query[i].1.len() > 0
            };
            let led = link.scheme == "https"@ && (short || long);
            &&& link_fault(link) is None <==> led && track
            &&& link_fault(link) == Some(ApiError::UnsupportedLink) <==> !led
            &&& link_fault(link) == Some(ApiError::NoTrackId) <==> led && !track
        }),
{
    reveal_strlit("youtu.be");
    reveal_strlit("music.youtube.com");
    reveal_strlit("www.youtube.com");
    reveal_strlit("youtube.com");
    lemma_small("youtu.be"@);
    lemma_small("music.youtube.com"@);
    lemma_small("www.youtube.com"@);
    lemma_small("youtube.com"@);
    if let Some(h) = link.host {
        lemma_reads_as(h, "youtu.be"@);
        lemma_reads_as(h, "music.youtube.com"@);
        lemma_reads_as(h, "www.youtube.com"@);
        lemma_reads_as(h, "youtube.com"@);
    }
}

/// A text with nothing blank at its ends.
pub open spec fn is_bare(s: Seq<char>) -> bool {
    s.len() > 0 && !blank(s[0]) && !blank(s.last())
}

proof fn lemma_trims_to(lead: Seq<char>, s: Seq<char>, tail: Seq<char>)
    requires
        all_blank(lead),
        all_blank(tail),
        is_bare(s),
    ensures
        trimmed(lead + s + tail) == s,
        trimmed(s) == s,
        trimmed(s + tail) == s,
        trimmed(lead + s) == s,
{
    let no = Seq::<char>::empty();
    law_trimming_takes_white_space_from_both_ends(lead, s, tail);
    law_trimming_takes_white_space_from_both_ends(no, s, no);
    law_trimming_takes_white_space_from_both_ends(no, s, tail);
    law_trimming_takes_white_space_from_both_ends(lead, s, no);
    assert(no + s + no =~= s);
    assert(no + s + tail =~= s + tail);
    assert(lead + s + no =~= lead + s);
}

/// The artist of an automatic channel is the name before " - Topic"; any
/// other channel is the artist's name. White space around either is dropped.
pub proof fn law_topic_channels_name_their_artist(
    lead: Seq<char>,
    name: Seq<char>,
    gap: Seq<char>,
    tail: Seq<char>,
)
    requires
        all_blank(lead),
        all_blank(gap),
        all_blank(tail),
        is_bare(name),
    ensures
        cleaned_artist(lead + (name + gap + " - Topic"@) + tail) == name,
        (forall|x: Seq<char>| name != #[trigger] (x + " - Topic"@)) ==> cleaned_artist(
            lead + name + tail,
        ) == name,
{
    reveal_strlit(" - Topic");
    let suffix = " - Topic"@;
    let whole = name + gap + suffix;
    assert(whole[0] == name[0]);
    assert(whole.last() == suffix[7]);
    lemma_trims_to(lead, whole, tail);
    law_parts_are_cut_out(name + gap, suffix, suffix, whole);
    assert(whole.take(whole.len() - suffix.len()) =~= name + gap);
    lemma_trims_to(lead, name, gap);
    lemma_trims_to(lead, name, tail);
    if forall|x: Seq<char>| name != #[trigger] (x + suffix) {
        law_parts_are_cut_out(name, suffix, suffix, name);
        if ends_with(name, suffix) {
            let x = name.take(name.len() - suffix.len());
            assert(name == x + suffix);
        }
    }
}

/// The word stands in the text, ASCII case aside.
pub open spec fn mentions(s: Seq<char>, word: Seq<char>) -> bool {
    exists|at: int|
        0 <= at && at + word.len() <= s.len() && reads_as(
            #[trigger] s.subrange(at, at + word.len()),
            word,
        )
}

proof fn lemma_mentions(s: Seq<char>, word: Seq<char>)
    requires
        lowered(word) == word,
    ensures
        has_part(lowered(s), word) <==> mentions(s, word),
{
    let q = lowered(s);
    if has_part(q, word) {
        let at = choose|at: int| #[trigger] occurs_at(q, word, at);
        let cut = s.subrange(at, at + word.len());
        assert(lowered(cut) =~= q.subrange(at, at + word.len()));
        lemma_reads_as(cut, word);
    }
    if mentions(s, word) {
        let at = choose|at: int|
            0 <= at && at + word.len() <= s.len() && reads_as(
                #[trigger] s.subrange(at, at + word.len()),
                word,
            );
        let cut = s.subrange(at, at + word.len());
        lemma_reads_as(cut, word);
        assert(lowered(cut) =~= q.subrange(at, at + word.len()));
        assert(occurs_at(q, word, at));
    }
}

/// A qualifier says how a track is presented exactly if it mentions one of
/// seven words, case aside.
pub proof fn law_seven_words_are_presentation(q: Seq<char>)
    ensures
        is_presentation(q) <==> mentions(q, "official"@) || mentions(q, "video"@) || mentions(
            q,
            "audio"@,
        ) || mentions(q, "lyric"@) || mentions(q, "visualizer"@) || mentions(q, "remaster"@)
            || mentions(q, "4k"@),
{
    reveal_strlit("official");
    reveal_strlit("video");
    reveal_strlit("audio");
    reveal_strlit("lyric");
    reveal_strlit("visualizer");
    reveal_strlit("remaster");
    reveal_strlit("4k");
    lemma_small("official"@);
    lemma_small("video"@);
    lemma_small("audio"@);
    lemma_small("lyric"@);
    lemma_small("visualizer"@);
    lemma_small("remaster"@);
    lemma_small("4k"@);
    lemma_mentions(q, "official"@);
    lemma_mentions(q, "video"@);
    lemma_mentions(q, "audio"@);
    lemma_mentions(q, "lyric"@);
    lemma_mentions(q, "visualizer"@);
    lemma_mentions(q, "remaster"@);
    lemma_mentions(q, "4k"@);
}

/// The last opening parenthesis is where it stands.
proof fn lemma_last_open_at(s: Seq<char>, at: int)
    requires
        0 <= at < s.len(),
        s[at] == '(',
        forall|k: int| at < k < s.len() ==> #[trigger] s[k] != '(',
    ensures
        last_open(s) == Some(at),
    decreases s.len(),
{
    if at < s.len() - 1 {
        assert(s[s.len() - 1] != '(');
        let r = s.drop_last();
        assert forall|k: int| at < k < r.len() implies #[trigger] r[k] != '(' by {
            assert(s[k] != '(');
        }
        lemma_last_open_at(r, at);
    }
}

/// Qualifiers in parentheses are dropped from the end, one after the other,
/// while they say how the track is presented; the first that does not stays,
/// with everything before it. What does not end in a parenthesis stays.
pub proof fn law_presentation_is_dropped_from_the_end(
    name: Seq<char>,
    gap: Seq<char>,
    q: Seq<char>,
)
    requires
        is_bare(name),
        all_blank(gap),
        !q.contains('('),
    ensures
        ({
            let whole = name + gap + seq!['('] + q + seq![')'];
            without_qualifiers(whole) == if is_presentation(q) {
                without_qualifiers(name)
            } else {
                whole
            }
        }),
        without_qualifiers(seq!['('] + q + seq![')']).len() == 0 <==> is_presentation(q),
        name.last() != ')' ==> without_qualifiers(name) == name,
{
    let whole = name + gap + seq!['('] + q + seq![')'];
    let at = (name.len() + gap.len()) as int;
    assert(whole[at] == '(');
    assert forall|k: int| at < k < whole.len() implies #[trigger] whole[k] != '(' by {
        if k < whole.len() - 1 {
            assert(whole[k] == q[k - at - 1]);
        }
    }
    lemma_last_open_at(whole, at);
    assert(whole.last() == ')');
    assert(whole.subrange(at + 1, whole.len() - 1) =~= q);
    assert(whole.take(at) =~= name + gap);
    lemma_trims_to(Seq::empty(), name, gap);
    let alone = seq!['('] + q + seq![')'];
    assert forall|k: int| 0 < k < alone.len() implies #[trigger] alone[k] != '(' by {
        if k < alone.len() - 1 {
            assert(alone[k] == q[k - 1]);
        }
    }
    lemma_last_open_at(alone, 0);
    assert(alone.last() == ')');
    assert(alone.subrange(1, alone.len() - 1) =~= q);
    assert(alone.take(0) =~= Seq::<char>::empty());
    let no = Seq::<char>::empty();
    law_trimming_takes_white_space_from_both_ends(no, no, no);
    assert(no + no + no =~= no);
    assert(last_open(no) is None);
    assert(without_qualifiers(no) == no);
}

/// The track in a video title: where the title starts with the artist's name
/// and a dash, case aside, what follows; else the title; without what is
/// presentation, unless nothing would be left.
pub proof fn law_titles_lose_artist_and_presentation(
    raw: Seq<char>,
    title: Seq<char>,
    artist: Seq<char>,
    lead: Seq<char>,
    tail: Seq<char>,
    front: Seq<char>,
    gap: Seq<char>,
    track: Seq<char>,
)
    requires
        all_blank(lead),
        all_blank(tail),
        all_blank(gap),
        is_bare(title),
        is_bare(artist),
        is_bare(track),
        raw == lead + title + tail,
    ensures
        title == front + gap + track && reads_as(front, artist + " - "@) ==> cleaned_title(
            raw,
            lead + artist + tail,
        ) == if without_qualifiers(track).len() == 0 {
            title
        } else {
            without_qualifiers(track)
        },
        !(title.len() >= artist.len() + 3 && reads_as(
            title.take((artist.len() + 3) as int),
            artist + " - "@,
        )) ==> cleaned_title(raw, lead + artist + tail) == if without_qualifiers(title).len() == 0 {
            title
        } else {
            without_qualifiers(title)
        },
{
    reveal_strlit(" - ");
    lemma_trims_to(lead, title, tail);
    lemma_trims_to(lead, artist, tail);
    let prefix = artist + " - "@;
    let n = prefix.len() as int;
    if title.len() >= n {
        lemma_reads_as(title.take(n), prefix);
    }
    if title == front + gap + track && reads_as(front, prefix) {
        assert(title.take(n) =~= front);
        assert(title.skip(n) =~= gap + track);
        lemma_trims_to(gap, track, tail);
    }
}

/// Replacing leaves a text that does not hold the part as it is, and puts the
/// new part where the old one first stands, going on behind it.
pub proof fn law_replacing_is_from_left_to_right(
    a: Seq<char>,
    from: Seq<char>,
    b: Seq<char>,
    to: Seq<char>,
)
    requires
        from.len() > 0,
    ensures
        !has_part(a, from) ==> replaced(a, from, to) == a,
        (forall|k: int| 0 <= k < a.len() ==> !#[trigger] occurs_at(a + from + b, from, k))
            ==> replaced(a + from + b, from, to) == a + to + replaced(b, from, to),
    decreases a.len(),
{
    if a.len() == 0 {
        let whole = a + from + b;
        assert(whole.subrange(0, from.len() as int) =~= from);
        assert(whole.skip(from.len() as int) =~= b);
        assert(a + to + replaced(b, from, to) =~= to + replaced(b, from, to));
        assert(replaced(a, from, to) =~= a);
    } else {
        law_replacing_is_from_left_to_right(a.skip(1), from, b, to);
        lemma_replaced_absent(a, from, to);
        lemma_replaced_behind(a, from, b, to);
    }
}

proof fn lemma_replaced_absent(a: Seq<char>, from: Seq<char>, to: Seq<char>)
    requires
        from.len() > 0,
        a.len() > 0,
        !has_part(a.skip(1), from) ==> replaced(a.skip(1), from, to) == a.skip(1),
    ensures
        !has_part(a, from) ==> replaced(a, from, to) == a,
{
    let rest = a.skip(1);
    if !has_part(a, from) {
        assert(!occurs_at(a, from, 0));
        if has_part(rest, from) {
            let at = choose|at: int| #[trigger] occurs_at(rest, from, at);
            assert(a.subrange(at + 1, at + 1 + from.len()) =~= rest.subrange(at, at + from.len()));
            assert(occurs_at(a, from, at + 1));
        }
        assert(seq![a[0]] + rest =~= a);
    }
}

proof fn lemma_replaced_behind(a: Seq<char>, from: Seq<char>, b: Seq<char>, to: Seq<char>)
    requires
        from.len() > 0,
        a.len() > 0,
        (forall|k: int|
            0 <= k < a.skip(1).len() ==> !#[trigger] occurs_at(a.skip(1) + from + b, from, k))
            ==> replaced(a.skip(1) + from + b, from, to) == a.skip(1) + to + replaced(b, from, to),
    ensures
        (forall|k: int| 0 <= k < a.len() ==> !#[trigger] occurs_at(a + from + b, from, k))
            ==> replaced(a + from + b, from, to) == a + to + replaced(b, from, to),
{
    let whole = a + from + b;
    let rest = a.skip(1);
    let less = rest + from + b;
    if forall|k: int| 0 <= k < a.len() ==> !#[trigger] occurs_at(whole, from, k) {
        assert(whole.skip(1) =~= less);
        assert forall|k: int| 0 <= k < rest.len() implies !#[trigger] occurs_at(less, from, k) by {
            assert(!occurs_at(whole, from, k + 1));
            if k + from.len() <= less.len() {
                assert(whole.subrange(k + 1, k + 1 + from.len()) =~= less.subrange(
                    k,
                    k + from.len(),
                ));
            }
        }
        assert(!occurs_at(whole, from, 0));
        assert(whole[0] == a[0]);
        let r = replaced(b, from, to);
        assert(replaced(whole, from, to) == seq![a[0]] + replaced(less, from, to));
        assert(seq![a[0]] + (rest + to + r) =~= a + to + r);
    }
}

/// A track is the one looked for exactly if both its title and its artist
/// have the key of those looked for.
pub proof fn law_tracks_match_in_title_and_artist(
    track: ItunesTrack,
    title: Seq<char>,
    artist: Seq<char>,
)
    ensures
        is_exact(track, title, artist) <==> {
            &&& key_of(track.track_name@) == key_of(title)
            &&& key_of(track.artist_name@) == key_of(artist)
        },
{
}

} // verus!
