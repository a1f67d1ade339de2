//! A table of HTTP header fields keyed by lower-case name, and the three
//! operations a signed exchange needs from it.

use vstd::prelude::*;
use vstd::string::*;
use vstd::utf8::{decode_utf8, encode_utf8, valid_utf8};
use crate::canonical::{
    canonical_entries, keys_ascending, keys_distinct, lemma_canonical_listing_unique,
    lemma_lists_same_entries, lists, sort_entries,
};
use crate::cbor::{byte_string_map, encode_byte_string_map, entry_views};
use crate::pairs::{
    entries_map, is_lower, lemma_pairs_map_last_value, lemma_pairs_map_names, lemma_pairs_map_push,
    lemma_pairs_map_update, lemma_pairs_map_value, lemma_pairs_map_value_source, lowered_pairs,
    names_unique, pair_views, pairs_map,
};
use crate::names::{is_stateful_header, is_stateful_name, is_uncached_header, is_uncached_name};
use crate::text::{
    ascii_lower, contains_text, decimal_text, decimal_u64, has_infix, join_text, parse_u64,
    same_text, to_ascii_lower, u16_text,
};

verus! {

broadcast use vstd::utf8::encode_utf8_valid_utf8, vstd::utf8::encode_utf8_decode_utf8, vstd::utf8::decode_utf8_encode_utf8;

/// Index of the pair named `name`, if any.
fn find_name(v: &Vec<(String, String)>, name: &str) -> (r: Option<usize>)
    ensures
        match r {
            Some(j) => j < v@.len() && v@[j as int].0@ == name@,
            None => forall|j: int| 0 <= j < v@.len() ==> #[trigger] v@[j].0@ != name@,
        },
{
    let mut i: usize = 0;
    while i < v.len()
        invariant
            i <= v@.len(),
            forall|j: int| 0 <= j < i ==> #[trigger] v@[j].0@ != name@,
        decreases v@.len() - i,
    {
        if same_text(v[i].0.as_str(), name) {
            return Some(i);
        }
        i = i + 1;
    }
    None
}

/// Why a header table was refused.
#[derive(Debug, PartialEq, Eq)]
pub enum HeaderError {
    /// A required header is absent; holds its name.
    MissingHeader(String),
    /// The media-type check refused the `accept` value; holds its message.
    InvalidMediaType(String),
    /// A header that carries session state is present; holds its name.
    StatefulHeaderRejected(String),
    /// `cache-control` forbids caching; holds its value.
    InvalidCacheControl(String),
    /// `content-length` is not a decimal `u64`; holds its value.
    InvalidContentLength(String),
    /// `content-length` is above the limit; holds the length.
    ContentTooLarge(u64),
    /// The payload has no `content-type`.
    MissingContentType,
}

/// The largest payload, in bytes, that a signed exchange may announce.
pub const MAX_CONTENT_LENGTH: u64 = 8_000_000;

/// A header whose name is a stateful one is present.
pub open spec fn has_stateful_header(m: Map<Seq<char>, Seq<char>>) -> bool {
    exists|k: Seq<char>| #[trigger] m.contains_key(k) && is_stateful_name(k)
}

/// A `cache-control` value that contains `no-cache` or `private`.
pub open spec fn forbids_caching(v: Seq<char>) -> bool {
    has_infix(v, "no-cache"@) || has_infix(v, "private"@)
}

pub open spec fn cache_control_refused(m: Map<Seq<char>, Seq<char>>) -> bool {
    m.contains_key("cache-control"@) && forbids_caching(m["cache-control"@])
}

/// A rule that looks at single headers is broken.
pub open spec fn header_fault(m: Map<Seq<char>, Seq<char>>, reject_stateful: bool) -> bool {
    (reject_stateful && has_stateful_header(m)) || cache_control_refused(m)
}

/// `content-length` is absent, or a decimal `u64` within the limit.
pub open spec fn content_length_ok(m: Map<Seq<char>, Seq<char>>) -> bool {
    m.contains_key("content-length"@) ==> match decimal_u64(m["content-length"@]) {
        Some(n) => n <= MAX_CONTENT_LENGTH,
        None => false,
    }
}

/// The headers may be the payload headers of a signed exchange.
pub open spec fn payload_acceptable(m: Map<Seq<char>, Seq<char>>, reject_stateful: bool) -> bool {
    !header_fault(m, reject_stateful) && content_length_ok(m) && m.contains_key("content-type"@)
}

/// The user agent sent to the origin when the request has none: a mobile
/// browser's.
pub const USER_AGENT: &'static str = "Mozilla/5.0 (Linux; Android 6.0.1; Nexus 5X Build/MMB29P) AppleWebKit/537.36 (KHTML, like Gecko) Chrome/41.0.2272.96 Mobile Safari/537.36";

/// The names in a list of names.
pub open spec fn name_set(names: Seq<String>) -> Set<Seq<char>> {
    Set::new(|k: Seq<char>| exists|i: int| 0 <= i < names.len() && #[trigger] names[i]@ == k)
}

/// The `via` value sent on: the upstream value followed by `, sxgrs`, or
/// `sxgrs` alone.
pub open spec fn via_of(m: Map<Seq<char>, Seq<char>>) -> Seq<char> {
    if m.contains_key("via"@) {
        m["via"@] + ", sxgrs"@
    } else {
        "sxgrs"@
    }
}

/// The headers of `m` that are kept: those named in `names` as they are,
/// and `via` with the value `via` where it is not named.
pub open spec fn kept_headers(
    m: Map<Seq<char>, Seq<char>>,
    names: Set<Seq<char>>,
    via: Seq<char>,
) -> Map<Seq<char>, Seq<char>> {
    Map::new(
        |k: Seq<char>| m.contains_key(k) && (names.contains(k) || k == "via"@),
        |k: Seq<char>|
            if names.contains(k) {
                m[k]
            } else {
                via
            },
    )
}

/// `kept` with a `user-agent` and a `via` added where it has none.
pub open spec fn with_defaults(kept: Map<Seq<char>, Seq<char>>, via: Seq<char>) -> Map<
    Seq<char>,
    Seq<char>,
> {
    let a = if kept.contains_key("user-agent"@) {
        kept
    } else {
        kept.insert("user-agent"@, USER_AGENT@)
    };
    if a.contains_key("via"@) {
        a
    } else {
        a.insert("via"@, via)
    }
}

/// The headers sent to the origin server for a request with headers `m`.
pub open spec fn forwarded_map(m: Map<Seq<char>, Seq<char>>, names: Set<Seq<char>>) -> Map<
    Seq<char>,
    Seq<char>,
> {
    with_defaults(kept_headers(m, names, via_of(m)), via_of(m))
}

/// What forwarding the request headers `m` gives, where the media-type
/// check said `verdict` of the `accept` value.
pub open spec fn forward_outcome(
    r: Result<Vec<(String, String)>, HeaderError>,
    m: Map<Seq<char>, Seq<char>>,
    names: Set<Seq<char>>,
    verdict: Result<(), String>,
) -> bool {
    if !m.contains_key("accept"@) {
        match r {
            Err(HeaderError::MissingHeader(n)) => n@ == "accept"@,
            _ => false,
        }
    } else {
        match verdict {
            Err(e) => r == Err::<Vec<(String, String)>, HeaderError>(HeaderError::InvalidMediaType(e)),
            Ok(_) => match r {
                Ok(out) => names_unique(pair_views(out@)) && pairs_map(pair_views(out@)) == forwarded_map(
                    m,
                    names,
                ),
                Err(_) => false,
            },
        }
    }
}

/// Whether `k` is one of `names`.
fn name_listed(names: &[String], k: &str) -> (r: bool)
    ensures
        r == name_set(names@).contains(k@),
{
    let mut i: usize = 0;
    while i < names.len()
        invariant
            i <= names@.len(),
            forall|q: int| 0 <= q < i ==> #[trigger] names@[q]@ != k@,
        decreases names@.len() - i,
    {
        if same_text(names[i].as_str(), k) {
            assert(name_set(names@).contains(k@));
            return true;
        }
        i = i + 1;
    }
    false
}

/// Appends `name: value` where `out` has no header `name`.
fn add_default(out: &mut Vec<(String, String)>, name: &str, value: &str)
    requires
        names_unique(pair_views(old(out)@)),
    ensures
        names_unique(pair_views(final(out)@)),
        pairs_map(pair_views(final(out)@)) == if pairs_map(pair_views(old(out)@)).contains_key(name@) {
            pairs_map(pair_views(old(out)@))
        } else {
            pairs_map(pair_views(old(out)@)).insert(name@, value@)
        },
{
    proof {
        lemma_pairs_map_names(pair_views(out@));
    }
    match find_name(out, name) {
        Some(j) => {
            assert(pair_views(out@)[j as int].0 == name@);
        },
        None => {
            let ghost before = pair_views(out@);
            out.push((name.to_owned(), value.to_owned()));
            proof {
                assert(pair_views(out@) =~= before.push((name@, value@)));
                lemma_pairs_map_push(before, (name@, value@));
                assert(names_unique(pair_views(out@))) by {
                    assert forall|a: int, b: int| 0 <= a < b < pair_views(out@).len() implies
                        #[trigger] pair_views(out@)[a].0 != #[trigger] pair_views(out@)[b].0 by {
                        if b == before.len() {
                            assert(out@[a].0@ != name@);
                        }
                    }
                }
            }
        },
    }
}

/// The standard base64 encoding, with padding, of `b`.
pub uninterp spec fn base64_of(b: Seq<u8>) -> Seq<char>;

/// Relies on `base64::encode`: the standard alphabet, with padding; the
/// result depends on the bytes alone.
#[verifier::external_body]
fn base64_encode(b: &[u8]) -> (r: String)
    ensures
        r@ == base64_of(b@),
{
    base64::encode(b)
}

/// Names of the signed map that the exchange sets itself.
pub open spec fn is_exchange_field(k: Seq<char>) -> bool {
    k == ":status"@ || k == "content-encoding"@ || k == "digest"@
}

/// The headers of `m` that may be cached and carry no session state, with
/// the three fields of the exchange set.
pub open spec fn signed_map(m: Map<Seq<char>, Seq<char>>, status: u16, digest: Seq<u8>) -> Map<
    Seq<char>,
    Seq<char>,
> {
    Map::new(
        |k: Seq<char>| m.contains_key(k) && !is_uncached_name(k) && !is_stateful_name(k),
        |k: Seq<char>| m[k],
    ).insert(":status"@, decimal_text(status as nat)).insert(
        "content-encoding"@,
        "mi-sha256-03"@,
    ).insert("digest"@, "mi-sha256-03="@ + base64_of(digest))
}

/// `m` with names and values as their UTF-8 bytes.
pub open spec fn utf8_map(m: Map<Seq<char>, Seq<char>>) -> Map<Seq<u8>, Seq<u8>> {
    Map::new(
        |b: Seq<u8>| valid_utf8(b) && m.contains_key(decode_utf8(b)),
        |b: Seq<u8>| encode_utf8(m[decode_utf8(b)]),
    )
}

/// The bytes that a signature over the headers `m` covers: the signed map
/// as a CBOR map of byte strings, in canonical key order.
pub open spec fn signed_headers_bytes(m: Map<Seq<char>, Seq<char>>, status: u16, digest: Seq<u8>) -> Seq<u8> {
    byte_string_map(canonical_entries(utf8_map(signed_map(m, status, digest))))
}

pub open spec fn utf8_pair(p: (Seq<char>, Seq<char>)) -> (Seq<u8>, Seq<u8>) {
    (encode_utf8(p.0), encode_utf8(p.1))
}

/// A table of header fields. Names are held in ASCII lower case, each at
/// most once.
pub struct Headers {
    entries: Vec<(String, String)>,
}

impl View for Headers {
    type V = Map<Seq<char>, Seq<char>>;

    closed spec fn view(&self) -> Map<Seq<char>, Seq<char>> {
        pairs_map(pair_views(self.entries@))
    }
}

impl Headers {
    /// Names are unique and in lower case.
    pub closed spec fn wf(&self) -> bool {
        let s = pair_views(self.entries@);
        names_unique(s) && forall|i: int| 0 <= i < s.len() ==> is_lower(#[trigger] s[i].0)
    }

    /// Builds the table from name/value pairs. Each name is lowered; where
    /// a name comes more than once, the last value is kept.
    pub fn new(data: Vec<(String, String)>) -> (r: Headers)
        ensures
            r.wf(),
            r@ == entries_map(data@),
    {
        let mut entries: Vec<(String, String)> = Vec::new();
        let mut i: usize = 0;
        while i < data.len()
            invariant
                i <= data@.len(),
                names_unique(pair_views(entries@)),
                forall|q: int| 0 <= q < entries@.len() ==> is_lower(#[trigger] pair_views(entries@)[q].0),
                pairs_map(pair_views(entries@)) == pairs_map(lowered_pairs(data@.subrange(0, i as int))),
            decreases data@.len() - i,
        {
            let k = to_ascii_lower(data[i].0.as_str());
            let v = data[i].1.clone();
            proof {
                assert(ascii_lower(ascii_lower(data@[i as int].0@)) =~= ascii_lower(data@[i as int].0@));
                assert(lowered_pairs(data@.subrange(0, i + 1)) =~= lowered_pairs(data@.subrange(0, i as int)).push((k@, v@)));
                lemma_pairs_map_push(lowered_pairs(data@.subrange(0, i as int)), (k@, v@));
            }
            let ghost old_views = pair_views(entries@);
            match find_name(&entries, k.as_str()) {
                Some(j) => {
                    entries.set(j, (k, v));
                    proof {
                        assert(pair_views(entries@) =~= old_views.update(j as int, (old_views[j as int].0, v@)));
                        lemma_pairs_map_update(old_views, j as int, v@);
                    }
                },
                None => {
                    entries.push((k, v));
                    proof {
                        assert(pair_views(entries@) =~= old_views.push((k@, v@)));
                        lemma_pairs_map_push(old_views, (k@, v@));
                    }
                },
            }
            i = i + 1;
        }
        assert(data@.subrange(0, data@.len() as int) == data@);
        Headers { entries }
    }

    /// The headers to send to the origin server for this request.
    ///
    /// The request must have an `accept` header, and `validate_accept`
    /// must take its value; its error is handed back as it is. The rest is
    /// as `forward_with_verdict` says, with the validator's result as the
    /// verdict.
    pub fn forward_to_origin_server<F: Fn(&str) -> Result<(), String>>(
        self,
        forwarded_header_names: &[String],
        validate_accept: F,
    ) -> (r: Result<Vec<(String, String)>, HeaderError>)
        requires
            self.wf(),
            forall|a: &str| validate_accept.requires((a,)),
        ensures
            !self@.contains_key("accept"@) ==> forward_outcome(r, self@, name_set(forwarded_header_names@), Ok(())),
            self@.contains_key("accept"@) ==> exists|a: &str, verdict: Result<(), String>|
                a@ == self@["accept"@] && #[trigger] validate_accept.ensures((a,), verdict)
                    && forward_outcome(r, self@, name_set(forwarded_header_names@), verdict),
    {
        let ghost m = self@;
        proof {
            lemma_pairs_map_names(pair_views(self.entries@));
        }
        match find_name(&self.entries, "accept") {
            Some(j) => {
                proof {
                    lemma_pairs_map_value(pair_views(self.entries@), j as int);
                }
                let accept: &str = self.entries[j].1.as_str();
                let verdict = validate_accept(accept);
                let ghost v = verdict;
                assert(accept@ == m["accept"@] && validate_accept.ensures((accept,), v));
                let r = self.forward_with_verdict(forwarded_header_names, verdict);
                assert(forward_outcome(r, m, name_set(forwarded_header_names@), v));
                r
            },
            None => {
                self.forward_with_verdict(forwarded_header_names, Ok(()))
            },
        }
    }

    /// The headers to send to the origin server, given what the media-type
    /// check said of the request's `accept` value.
    ///
    /// Headers named in `forwarded_header_names` are kept; `via` is kept in
    /// any case, with `, sxgrs` added where it is not named; a default
    /// `user-agent`, and a `via` of `sxgrs`, are added where missing.
    pub fn forward_with_verdict(
        self,
        forwarded_header_names: &[String],
        accept_verdict: Result<(), String>,
    ) -> (r: Result<Vec<(String, String)>, HeaderError>)
        requires
            self.wf(),
        ensures
            forward_outcome(r, self@, name_set(forwarded_header_names@), accept_verdict),
    {
        let ghost m = self@;
        let ghost s = pair_views(self.entries@);
        let ghost names = name_set(forwarded_header_names@);
        proof {
            lemma_pairs_map_names(s);
        }
        match find_name(&self.entries, "accept") {
            Some(j) => {
                assert(s[j as int].0 == "accept"@);
                assert(m.contains_key("accept"@));
            },
            None => {
                return Err(HeaderError::MissingHeader("accept".to_owned()));
            },
        }
        if let Err(e) = accept_verdict {
            return Err(HeaderError::InvalidMediaType(e));
        }
        let via = match find_name(&self.entries, "via") {
            Some(t) => {
                proof {
                    lemma_pairs_map_value(s, t as int);
                }
                join_text(self.entries[t].1.as_str(), ", sxgrs")
            },
            None => "sxgrs".to_owned(),
        };
        assert(via@ == via_of(m));
        let mut out: Vec<(String, String)> = Vec::new();
        let mut i: usize = 0;
        while i < self.entries.len()
            invariant
                self.wf(),
                s == pair_views(self.entries@),
                names == name_set(forwarded_header_names@),
                i <= s.len(),
                names_unique(pair_views(out@)),
                pairs_map(pair_views(out@)) == kept_headers(pairs_map(s.subrange(0, i as int)), names, via@),
            decreases s.len() - i,
        {
            let ghost pre = s.subrange(0, i as int);
            let ghost before = pair_views(out@);
            proof {
                assert(s.subrange(0, i + 1) =~= pre.push(s[i as int]));
                lemma_pairs_map_push(pre, s[i as int]);
                lemma_pairs_map_names(pre);
                lemma_pairs_map_names(before);
            }
            let k = &self.entries[i].0;
            let keep_value = name_listed(forwarded_header_names, k.as_str());
            let is_via = same_text(k.as_str(), "via");
            if keep_value || is_via {
                let v = if keep_value {
                    self.entries[i].1.clone()
                } else {
                    via.clone()
                };
                out.push((k.clone(), v));
                proof {
                    assert(pair_views(out@) =~= before.push((k@, v@)));
                    lemma_pairs_map_push(before, (k@, v@));
                    assert(names_unique(pair_views(out@))) by {
                        assert forall|a: int, b: int| 0 <= a < b < pair_views(out@).len() implies
                            #[trigger] pair_views(out@)[a].0 != #[trigger] pair_views(out@)[b].0 by {
                            if b == before.len() {
                                let ka = before[a].0;
                                assert(pairs_map(before).contains_key(ka));
                                let q = choose|q: int| 0 <= q < pre.len() && pre[q].0 == ka;
                                assert(s[q].0 != s[i as int].0);
                            }
                        }
                    }
                    assert(kept_headers(pairs_map(s.subrange(0, i + 1)), names, via@) =~= kept_headers(pairs_map(pre), names, via@).insert(k@, v@));
                }
            } else {
                assert(kept_headers(pairs_map(s.subrange(0, i + 1)), names, via@) =~= kept_headers(pairs_map(pre), names, via@));
            }
            i = i + 1;
        }
        assert(s.subrange(0, s.len() as int) == s);
        add_default(&mut out, "user-agent", USER_AGENT);
        add_default(&mut out, "via", via.as_str());
        assert(pairs_map(pair_views(out@)) == forwarded_map(m, names));
        Ok(out)
    }

    /// The value of the header `name`, in any case.
    pub fn get(&self, name: &str) -> (r: Option<String>)
        requires
            self.wf(),
        ensures
            match r {
                Some(v) => self@.contains_key(ascii_lower(name@)) && v@ == self@[ascii_lower(name@)],
                None => !self@.contains_key(ascii_lower(name@)),
            },
    {
        let key = to_ascii_lower(name);
        proof {
            lemma_pairs_map_names(pair_views(self.entries@));
        }
        match find_name(&self.entries, key.as_str()) {
            Some(j) => {
                proof {
                    lemma_pairs_map_value(pair_views(self.entries@), j as int);
                }
                Some(self.entries[j].1.clone())
            },
            None => None,
        }
    }

    /// The canonical bytes of the signed header map of a response with
    /// these headers, status `status_code` and payload digest
    /// `mice_digest`.
    pub fn get_signed_headers_bytes(&self, status_code: u16, mice_digest: &[u8]) -> (r: Vec<u8>)
        requires
            self.wf(),
        ensures
            r@ == signed_headers_bytes(self@, status_code, mice_digest@),
    {
        let ghost m = self@;
        let ghost s = pair_views(self.entries@);
        let ghost sm = signed_map(m, status_code, mice_digest@);
        let ghost big = utf8_map(sm);
        let mut es: Vec<(Vec<u8>, Vec<u8>)> = Vec::new();
        // For each entry of `es`, the index in `s` of the header it encodes.
        let ghost mut src: Seq<int> = Seq::empty();
        let mut i: usize = 0;
        while i < self.entries.len()
            invariant
                self.wf(),
                s == pair_views(self.entries@),
                i <= s.len(),
                src.len() == es@.len(),
                forall|q: int| #![trigger src[q]] 0 <= q < src.len() ==> {
                    &&& 0 <= src[q] < i
                    &&& !is_uncached_name(s[src[q]].0)
                    &&& !is_stateful_name(s[src[q]].0)
                    &&& entry_views(es@)[q] == utf8_pair(s[src[q]])
                },
                forall|a: int, b: int| 0 <= a < b < src.len() ==> #[trigger] src[a] < #[trigger] src[b],
                forall|j: int| 0 <= j < i && !is_uncached_name(s[j].0) && !is_stateful_name(s[j].0)
                    ==> exists|q: int| 0 <= q < src.len() && #[trigger] src[q] == j,
            decreases s.len() - i,
        {
            let k = self.entries[i].0.as_str();
            let v = self.entries[i].1.as_str();
            if !(is_uncached_header(k) || is_stateful_header(k)) {
                let ghost before = entry_views(es@);
                es.push((k.as_bytes_vec(), v.as_bytes_vec()));
                proof {
                    let old_src = src;
                    src = src.push(i as int);
                    assert(entry_views(es@) =~= before.push(utf8_pair(s[i as int])));
                    assert forall|j: int| 0 <= j < i + 1 && !is_uncached_name(s[j].0) && !is_stateful_name(s[j].0)
                        implies exists|q: int| 0 <= q < src.len() && #[trigger] src[q] == j by {
                        if j < i {
                            let q = choose|q: int| 0 <= q < old_src.len() && #[trigger] old_src[q] == j;
                            assert(src[q] == j);
                        } else {
                            assert(src[old_src.len() as int] == j);
                        }
                    }
                }
            }
            i = i + 1;
        }
        let ghost filtered = entry_views(es@);
        proof {
            assert(keys_distinct(filtered)) by {
                assert forall|a: int, b: int| 0 <= a < b < filtered.len() implies #[trigger] filtered[a].0 != #[trigger] filtered[b].0 by {
                    assert(src[a] < src[b]);
                    assert(s[src[a]].0 != s[src[b]].0);
                    assert(decode_utf8(encode_utf8(s[src[a]].0)) == s[src[a]].0);
                    assert(decode_utf8(encode_utf8(s[src[b]].0)) == s[src[b]].0);
                }
            }
        }
        let status = u16_text(status_code);
        let prefix = "mi-sha256-03=";
        let digest = join_text(prefix, base64_encode(mice_digest).as_str());
        es.push((":status".as_bytes_vec(), status.as_str().as_bytes_vec()));
        es.push(("content-encoding".as_bytes_vec(), "mi-sha256-03".as_bytes_vec()));
        es.push(("digest".as_bytes_vec(), digest.as_str().as_bytes_vec()));
        proof {
            reveal_strlit(":status");
            reveal_strlit("content-encoding");
            reveal_strlit("digest");
            let ev = entry_views(es@);
            let extra = seq![
                utf8_pair((":status"@, decimal_text(status_code as nat))),
                utf8_pair(("content-encoding"@, "mi-sha256-03"@)),
                utf8_pair(("digest"@, "mi-sha256-03="@ + base64_of(mice_digest@))),
            ];
            assert(ev =~= filtered + extra);
            lemma_pairs_map_names(s);
            assert(keys_distinct(ev)) by {
                assert forall|a: int, b: int| 0 <= a < b < ev.len() implies #[trigger] ev[a].0 != #[trigger] ev[b].0 by {
                    if b >= filtered.len() {
                        let kb = decode_utf8(ev[b].0);
                        assert(is_exchange_field(kb));
                        if a < filtered.len() {
                            let j = src[a];
                            assert(decode_utf8(ev[a].0) == s[j].0);
                        } else {
                            assert(decode_utf8(ev[a].0) != kb);
                        }
                    }
                }
            }
            assert forall|q: int| 0 <= q < ev.len() implies big.contains_key(#[trigger] ev[q].0) && big[ev[q].0] == ev[q].1 by {
                if q < filtered.len() {
                    let j = src[q];
                    lemma_pairs_map_value(s, j);
                    assert(!is_exchange_field(s[j].0));
                    assert(decode_utf8(ev[q].0) == s[j].0);
                    assert(sm[s[j].0] == s[j].1);
                } else {
                    assert(decode_utf8(ev[q].0) == decode_utf8(encode_utf8(decode_utf8(ev[q].0))));
                }
            }
            assert forall|kb: Seq<u8>| #[trigger] big.contains_key(kb) implies exists|q: int| 0 <= q < ev.len() && ev[q].0 == kb by {
                let k = decode_utf8(kb);
                assert(encode_utf8(k) == kb);
                if k == ":status"@ {
                    assert(ev[filtered.len() as int].0 == kb);
                } else if k == "content-encoding"@ {
                    assert(ev[filtered.len() as int + 1].0 == kb);
                } else if k == "digest"@ {
                    assert(ev[filtered.len() as int + 2].0 == kb);
                } else {
                    assert(m.contains_key(k) && !is_uncached_name(k) && !is_stateful_name(k));
                    let j = choose|j: int| 0 <= j < s.len() && s[j].0 == k;
                    let q = choose|q: int| 0 <= q < src.len() && #[trigger] src[q] == j;
                    assert(ev[q].0 == kb);
                }
            }
            assert(lists(ev, big));
        }
        let ghost unsorted = entry_views(es@);
        let sorted = sort_entries(es);
        proof {
            let sv = entry_views(sorted@);
            lemma_lists_same_entries(unsorted, sv, big);
            let c = canonical_entries(big);
            assert(keys_ascending(c) && lists(c, big));
            lemma_canonical_listing_unique(sv, c, big);
        }
        encode_byte_string_map(&sorted)
    }

    /// Checks that the headers may be signed as the payload headers of an
    /// exchange. With `reject_stateful_headers`, a header that carries
    /// session state is refused. Where several headers break a rule, which
    /// of them is reported is left open.
    pub fn validate_as_sxg_payload(&self, reject_stateful_headers: bool) -> (r: Result<(), HeaderError>)
        requires
            self.wf(),
        ensures
            match r {
                Ok(()) => payload_acceptable(self@, reject_stateful_headers),
                Err(HeaderError::StatefulHeaderRejected(n)) => reject_stateful_headers
                    && self@.contains_key(n@) && is_stateful_name(n@),
                Err(HeaderError::InvalidCacheControl(v)) => cache_control_refused(self@)
                    && v@ == self@["cache-control"@],
                Err(HeaderError::InvalidContentLength(v)) => !header_fault(self@, reject_stateful_headers)
                    && self@.contains_key("content-length"@) && v@ == self@["content-length"@]
                    && decimal_u64(v@) is None,
                Err(HeaderError::ContentTooLarge(n)) => !header_fault(self@, reject_stateful_headers)
                    && self@.contains_key("content-length"@)
                    && decimal_u64(self@["content-length"@]) == Some(n) && n > MAX_CONTENT_LENGTH,
                Err(HeaderError::MissingContentType) => !header_fault(self@, reject_stateful_headers)
                    && content_length_ok(self@) && !self@.contains_key("content-type"@),
                Err(_) => false,
            },
    {
        let ghost s = pair_views(self.entries@);
        proof {
            lemma_pairs_map_names(s);
        }
        let mut i: usize = 0;
        while i < self.entries.len()
            invariant
                self.wf(),
                s == pair_views(self.entries@),
                i <= s.len(),
                forall|q: int|
                    0 <= q < i ==> !(reject_stateful_headers && is_stateful_name(#[trigger] s[q].0)),
                forall|q: int|
                    0 <= q < i ==> !(#[trigger] s[q].0 == "cache-control"@ && forbids_caching(s[q].1)),
            decreases s.len() - i,
        {
            let k = &self.entries[i].0;
            let v = &self.entries[i].1;
            assert(s[i as int] == (k@, v@));
            if reject_stateful_headers && is_stateful_header(k.as_str()) {
                proof {
                    lemma_pairs_map_value(s, i as int);
                }
                return Err(HeaderError::StatefulHeaderRejected(k.clone()));
            }
            if same_text(k.as_str(), "cache-control") && (contains_text(v.as_str(), "no-cache")
                || contains_text(v.as_str(), "private")) {
                proof {
                    lemma_pairs_map_value(s, i as int);
                }
                return Err(HeaderError::InvalidCacheControl(v.clone()));
            }
            i = i + 1;
        }
        proof {
            assert forall|k: Seq<char>| #[trigger] self@.contains_key(k) implies !(reject_stateful_headers
                && is_stateful_name(k)) by {
                let q = choose|q: int| 0 <= q < s.len() && s[q].0 == k;
            }
            if self@.contains_key("cache-control"@) {
                let q = choose|q: int| 0 <= q < s.len() && s[q].0 == "cache-control"@;
                lemma_pairs_map_value(s, q);
            }
        }
        match find_name(&self.entries, "content-length") {
            Some(j) => {
                proof {
                    lemma_pairs_map_value(s, j as int);
                }
                let v = &self.entries[j].1;
                match parse_u64(v.as_str()) {
                    Some(n) => {
                        if n > MAX_CONTENT_LENGTH {
                            return Err(HeaderError::ContentTooLarge(n));
                        }
                    },
                    None => {
                        return Err(HeaderError::InvalidContentLength(v.clone()));
                    },
                }
            },
            None => {},
        }
        match find_name(&self.entries, "content-type") {
            Some(j) => {
                assert(s[j as int].0 == "content-type"@);
                Ok(())
            },
            None => Err(HeaderError::MissingContentType),
        }
    }
}

/// A name given in any case is found in the table under its lower-case
/// form, whatever case the pair that supplied it used.
pub proof fn lemma_lookup_ignores_case(data: Seq<(String, String)>, i: int, name: Seq<char>)
    requires
        0 <= i < data.len(),
        ascii_lower(name) == ascii_lower(data[i].0@),
    ensures
        entries_map(data).contains_key(ascii_lower(name)),
{
    let l = lowered_pairs(data);
    lemma_pairs_map_names(l);
    assert(l[i].0 == ascii_lower(name));
}

/// Where pairs share a name up to case, the table holds the value of the
/// last of them.
pub proof fn lemma_last_value_wins(data: Seq<(String, String)>, i: int)
    requires
        0 <= i < data.len(),
        forall|j: int| i < j < data.len() ==> ascii_lower(#[trigger] data[j].0@) != ascii_lower(data[i].0@),
    ensures
        entries_map(data).contains_key(ascii_lower(data[i].0@)),
        entries_map(data)[ascii_lower(data[i].0@)] == data[i].1@,
{
    let l = lowered_pairs(data);
    assert forall|j: int| i < j < l.len() implies #[trigger] l[j].0 != l[i].0 by {
        assert(ascii_lower(data[j].0@) != ascii_lower(data[i].0@));
    }
    lemma_pairs_map_last_value(l, i);
}

/// The signed header bytes depend on the headers alone, not on the order
/// in which they were supplied: two lists of the same pairs, with no name
/// given twice, give the same bytes.
pub proof fn lemma_signed_bytes_ignore_order(
    a: Seq<(String, String)>,
    b: Seq<(String, String)>,
    status: u16,
    digest: Seq<u8>,
)
    requires
        names_unique(lowered_pairs(a)),
        forall|x: (String, String)| #[trigger] a.contains(x) <==> b.contains(x),
    ensures
        entries_map(a) == entries_map(b),
        signed_headers_bytes(entries_map(a), status, digest) == signed_headers_bytes(
            entries_map(b),
            status,
            digest,
        ),
{
    let la = lowered_pairs(a);
    let lb = lowered_pairs(b);
    lemma_pairs_map_names(la);
    lemma_pairs_map_names(lb);
    assert forall|k: Seq<char>| #[trigger] pairs_map(la).contains_key(k) <==> pairs_map(lb).contains_key(k) by {
        if pairs_map(la).contains_key(k) {
            let i = choose|i: int| 0 <= i < la.len() && la[i].0 == k;
            assert(a.contains(a[i]));
            let j = choose|j: int| 0 <= j < b.len() && b[j] == a[i];
            assert(lb[j].0 == k);
        }
        if pairs_map(lb).contains_key(k) {
            let j = choose|j: int| 0 <= j < lb.len() && lb[j].0 == k;
            assert(b.contains(b[j]));
            assert(a.contains(b[j]));
            let i = choose|i: int| 0 <= i < a.len() && a[i] == b[j];
            assert(la[i].0 == k);
        }
    }
    assert forall|k: Seq<char>| #[trigger] pairs_map(la).contains_key(k) implies pairs_map(la)[k] == pairs_map(lb)[k] by {
        lemma_pairs_map_value_source(lb, k);
        let j = choose|j: int| 0 <= j < lb.len() && lb[j].0 == k && lb[j].1 == pairs_map(lb)[k];
        assert(b.contains(b[j]));
        assert(a.contains(b[j]));
        let i = choose|i: int| 0 <= i < a.len() && a[i] == b[j];
        assert(la[i] == lb[j]);
        lemma_pairs_map_value(la, i);
    }
    assert(pairs_map(la) =~= pairs_map(lb));
}

} // verus!
