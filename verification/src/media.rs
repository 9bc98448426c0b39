//! The media record: the typed value the collections of this crate
//! were built to hold, with its field updates and derived names.

use vstd::prelude::*;

use crate::codec::{deserialize_spec, lemma_round_trip, ser};
use crate::doc::{entries_view, lemma_entries_view, Doc, DocV};
use crate::keys::str_eq;
use crate::record::Record;

verus! {

/// Model of a media record: the characters of its four fields.
pub struct MediaItemV {
    pub id: Seq<char>,
    pub url: Seq<char>,
    pub title: Seq<char>,
    pub format: Seq<char>,
}

/// One media record: an entity id, the address of its data, a title
/// and a format name.
#[derive(Debug)]
pub struct MediaItem {
    pub id: String,
    pub url: String,
    pub title: String,
    pub format: String,
}

impl View for MediaItem {
    type V = MediaItemV;

    open spec fn view(&self) -> MediaItemV {
        MediaItemV { id: self.id@, url: self.url@, title: self.title@, format: self.format@ }
    }
}

impl DeepView for MediaItem {
    type V = MediaItemV;

    open spec fn deep_view(&self) -> MediaItemV {
        self.view()
    }
}

/// An update to one field of a media record. Only fields listed here
/// can change, so an unknown field name cannot be silently ignored.
#[derive(Debug)]
pub enum Field {
    Title(String),
    Format(String),
}

/// Format names rendered as video.
pub open spec fn is_video_format(f: Seq<char>) -> bool {
    f == "mkv"@ || f == "mp4"@ || f == "ogg"@ || f == "webm"@
}

/// Format names rendered as image.
pub open spec fn is_image_format(f: Seq<char>) -> bool {
    f == "jpeg"@ || f == "jpg"@ || f == "png"@ || f == "webp"@
}

/// The kind of record a format name denotes.
pub open spec fn kind_spec(f: Seq<char>) -> Seq<char> {
    if is_video_format(f) {
        "video"@
    } else if is_image_format(f) {
        "image"@
    } else {
        "unknown"@
    }
}

/// Index of the last `'.'` in `s`, or `-1` if there is none.
pub open spec fn last_dot(s: Seq<char>) -> int
    decreases s.len(),
{
    if s.len() == 0 {
        -1
    } else if s[s.len() - 1] == '.' {
        s.len() - 1
    } else {
        last_dot(s.drop_last())
    }
}

/// The file name a record downloads under: the title, with the format
/// appended after a dot unless the title's own tail from its last dot
/// on already equals the format.
pub open spec fn download_name_spec(t: Seq<char>, f: Seq<char>) -> Seq<char> {
    if last_dot(t) >= 0 && t.skip(last_dot(t)) == f {
        t
    } else {
        t + "."@ + f
    }
}

pub proof fn lemma_last_dot(s: Seq<char>)
    ensures
        last_dot(s) == -1 || (0 <= last_dot(s) < s.len()),
        last_dot(s) == -1 ==> forall|k: int| 0 <= k < s.len() ==> s[k] != '.',
        last_dot(s) >= 0 ==> s[last_dot(s)] == '.',
        last_dot(s) >= 0 ==> forall|k: int| last_dot(s) < k < s.len() ==> s[k] != '.',
    decreases s.len(),
{
    if s.len() > 0 && s[s.len() - 1] != '.' {
        let t = s.drop_last();
        lemma_last_dot(t);
        assert(forall|k: int| 0 <= k < s.len() - 1 ==> #[trigger] t[k] == s[k]);
        if last_dot(s) == -1 {
            assert forall|k: int| 0 <= k < s.len() implies s[k] != '.' by {
                if k < s.len() - 1 {
                    assert(t[k] != '.');
                }
            }
        } else {
            assert(last_dot(s) == last_dot(t));
            assert(s[last_dot(s)] == t[last_dot(t)]);
            assert forall|k: int| last_dot(s) < k < s.len() implies s[k] != '.' by {
                if k < s.len() - 1 {
                    assert(t[k] != '.');
                }
            }
        }
    }
}

/// Position of the last `'.'` in `t`, if any, mirroring `last_dot`.
fn find_last_dot(t: &str) -> (r: Option<usize>)
    ensures
        match r {
            Some(p) => last_dot(t@) == p as int && p < t@.len(),
            None => last_dot(t@) == -1,
        },
{
    let n = t.unicode_len();
    let mut i: usize = n;
    while i > 0
        invariant
            n == t@.len(),
            i <= n,
            forall|k: int| i <= k < n ==> t@[k] != '.',
        decreases i,
    {
        i = i - 1;
        if t.get_char(i) == '.' {
            proof {
                lemma_last_dot(t@);
                if last_dot(t@) == -1 {
                    assert(t@[i as int] != '.');
                }
                if last_dot(t@) > i as int {
                    assert(t@[last_dot(t@)] != '.');
                }
                if 0 <= last_dot(t@) < i as int {
                    assert(t@[i as int] != '.');
                }
                assert(last_dot(t@) == i as int);
            }
            return Some(i);
        }
    }
    proof {
        lemma_last_dot(t@);
        if last_dot(t@) >= 0 {
            assert(t@[last_dot(t@)] != '.');
        }
    }
    None
}

impl MediaItem {
    /// The kind of media the format names: video, image, or unknown.
    pub fn kind(&self) -> (r: &'static str)
        ensures
            r@ == kind_spec(self.format@),
    {
        let f = self.format.as_str();
        if str_eq(f, "mkv") || str_eq(f, "mp4") || str_eq(f, "ogg") || str_eq(f, "webm") {
            "video"
        } else if str_eq(f, "jpeg") || str_eq(f, "jpg") || str_eq(f, "png") || str_eq(f, "webp") {
            "image"
        } else {
            "unknown"
        }
    }

    /// Applies one field update; the other fields keep their value.
    pub fn update(&mut self, field: Field)
        ensures
            match field {
                Field::Title(t) => final(self)@ == (MediaItemV { title: t@, ..old(self)@ }),
                Field::Format(f) => final(self)@ == (MediaItemV { format: f@, ..old(self)@ }),
            },
    {
        match field {
            Field::Title(t) => {
                self.title = t;
            },
            Field::Format(f) => {
                self.format = f;
            },
        }
    }

    /// The name a download of this record carries.
    pub fn download_name(&self) -> (r: String)
        ensures
            r@ == download_name_spec(self.title@, self.format@),
    {
        let t = self.title.as_str();
        let n = t.unicode_len();
        let mut matched = false;
        match find_last_dot(t) {
            Some(pos) => {
                proof {
                    lemma_last_dot(t@);
                }
                let tail = t.substring_char(pos, n);
                proof {
                    assert(tail@ =~= t@.skip(pos as int));
                }
                if str_eq(tail, self.format.as_str()) {
                    matched = true;
                }
            },
            None => {
            },
        }
        if matched {
            self.title.clone()
        } else {
            let mut out = self.title.clone();
            out.append(".");
            out.append(self.format.as_str());
            proof {
                assert(out@ =~= self.title@ + "."@ + self.format@);
            }
            out
        }
    }
}

/// An observable change of a media collection: a record came to be, or
/// went away.
#[derive(Debug)]
pub enum MediaEvent {
    Create(MediaItem),
    Delete(MediaItem),
}

/// The document a media record encodes through: one map with the four
/// fields as leaf entries, in sorted key order.
pub open spec fn media_doc(v: MediaItemV) -> DocV {
    DocV::Obj(
        seq![
            ("format"@, DocV::Val(v.format)),
            ("id"@, DocV::Val(v.id)),
            ("title"@, DocV::Val(v.title)),
            ("url"@, DocV::Val(v.url)),
        ],
    )
}

/// The model read back from a document: exactly a four-entry map with
/// the known keys and leaf values.
pub open spec fn media_of_doc(d: DocV) -> Option<MediaItemV> {
    match d {
        DocV::Obj(es) => {
            if es.len() == 4 && es[0].0 == "format"@ && es[0].1 is Val && es[1].0 == "id"@
                && es[1].1 is Val && es[2].0 == "title"@ && es[2].1 is Val && es[3].0 == "url"@
                && es[3].1 is Val {
                Some(
                    MediaItemV {
                        format: es[0].1->Val_0,
                        id: es[1].1->Val_0,
                        title: es[2].1->Val_0,
                        url: es[3].1->Val_0,
                    },
                )
            } else {
                None
            }
        },
        _ => None,
    }
}

impl Record for MediaItem {
    open spec fn encode_of(v: MediaItemV) -> Seq<char> {
        ser(media_doc(v))
    }

    open spec fn decode_of(s: Seq<char>) -> Option<MediaItemV> {
        match deserialize_spec(s) {
            Some(d) => media_of_doc(d),
            None => None,
        }
    }

    fn encode(&self) -> (r: String) {
        let mut es: Vec<(String, Doc)> = Vec::new();
        es.push((String::from_str("format"), Doc::Val(self.format.clone())));
        es.push((String::from_str("id"), Doc::Val(self.id.clone())));
        es.push((String::from_str("title"), Doc::Val(self.title.clone())));
        es.push((String::from_str("url"), Doc::Val(self.url.clone())));
        let d = Doc::Obj(es);
        let r = d.emit();
        proof {
            lemma_entries_view(d->Obj_0@);
            assert(entries_view(d->Obj_0@) =~= media_doc(self.deep_view())->Obj_0);
        }
        r
    }

    fn decode(s: &str) -> (r: Option<MediaItem>) {
        match Doc::from_str(s) {
            None => None,
            Some(d) => {
                match d {
                    Doc::Val(_) => None,
                    Doc::Obj(es) => {
                        proof {
                            lemma_entries_view(es@);
                        }
                        if es.len() != 4 {
                            return None;
                        }
                        if !str_eq(es[0].0.as_str(), "format") || !str_eq(
                            es[1].0.as_str(),
                            "id",
                        ) || !str_eq(es[2].0.as_str(), "title") || !str_eq(es[3].0.as_str(), "url")
                        {
                            return None;
                        }
                        match (&es[0].1, &es[1].1, &es[2].1, &es[3].1) {
                            (Doc::Val(f), Doc::Val(i), Doc::Val(t), Doc::Val(u)) => {
                                Some(
                                    MediaItem {
                                        id: i.clone(),
                                        url: u.clone(),
                                        title: t.clone(),
                                        format: f.clone(),
                                    },
                                )
                            },
                            _ => None,
                        }
                    },
                }
            },
        }
    }

    fn duplicate(&self) -> (r: MediaItem) {
        MediaItem {
            id: self.id.clone(),
            url: self.url.clone(),
            title: self.title.clone(),
            format: self.format.clone(),
        }
    }

    proof fn round_trip(v: MediaItemV) {
        lemma_round_trip(media_doc(v));
        let es = media_doc(v)->Obj_0;
        assert(media_of_doc(media_doc(v)) == Some(v));
    }
}

} // verus!
