//! Writing whole documents.
use vstd::prelude::*;
use vstd::string::StringExecFns;

use crate::kv3::kv3_text::serializer::{serialize_object, value_text, writable};
use crate::kv_map::all_keys_distinct;
use crate::parser::kv3_text::spec_parse_kv3_text;
use crate::parser::KvParseErrorView;
use crate::round_trip::{
    expressible, header_names_plain, lemma_expressible_round_trips,
    lemma_serialized_document_round_trip,
};
use crate::kv3::kv3_text::NEW_LINE;
use crate::kv3::{kv3_id_text, uuid_text, Kv3Id, KvHeader, ENC_EXT, FMT_GENERIC};
use crate::{KvFormat, KvObject, KvValue};

pub mod kv3_text;

verus! {

/// The text of a KV3 document: the header comment naming the encoding and
/// format, then the value at indent 0, each followed by a line break.
pub open spec fn kv3_document_text(v: KvValue, encoding: Seq<char>, format: Seq<char>) -> Seq<
    char,
> {
    "<!-- kv3 encoding:"@ + encoding + " format:"@ + format + " -->"@ + NEW_LINE@ + value_text(v, 0)
        + NEW_LINE@
}

/// The encoding and format a header declares, the text encoding and the
/// generic format where there is no header.
pub open spec fn header_texts(header: Option<KvHeader>) -> (Seq<char>, Seq<char>) {
    match header {
        Some(h) => (kv3_id_text(h.encoding.name@, h.encoding.id), kv3_id_text(h.format.name@, h.format.id)),
        None => (kv3_id_text("text"@, ENC_EXT), kv3_id_text("generic"@, FMT_GENERIC)),
    }
}

/// The header a reference to a header stands for.
pub open spec fn header_view(header: Option<&KvHeader>) -> Option<KvHeader> {
    match header {
        Some(h) => Some(*h),
        None => None,
    }
}

/// The document that holds `v` under the given header.
pub open spec fn written_document(v: KvValue, header: Option<KvHeader>) -> Seq<char> {
    kv3_document_text(v, header_texts(header).0, header_texts(header).1)
}

/// A document names the header's own encoding and format, each as
/// `name:version{uuid}`, then holds the value's text, each on its own line.
pub proof fn lemma_document_with_header(v: KvValue, h: KvHeader)
    ensures
        written_document(v, Some(h)) == "<!-- kv3 encoding:"@ + h.encoding.name@ + ":version{"@
            + uuid_text(h.encoding.id) + "}"@ + " format:"@ + h.format.name@ + ":version{"@
            + uuid_text(h.format.id) + "}"@ + " -->"@ + seq!['\r', '\n'] + value_text(v, 0) + seq![
            '\r',
            '\n',
        ],
{
    reveal_strlit("\r\n");
    let e = h.encoding.name@ + ":version{"@ + uuid_text(h.encoding.id) + "}"@;
    let f = h.format.name@ + ":version{"@ + uuid_text(h.format.id) + "}"@;
    assert(written_document(v, Some(h)) == "<!-- kv3 encoding:"@ + e + " format:"@ + f + " -->"@
        + NEW_LINE@ + value_text(v, 0) + NEW_LINE@);
}

/// Without a header, a document is written as with the header that names the
/// text encoding and the generic format.
pub proof fn lemma_document_default_header(v: KvValue, h: KvHeader)
    requires
        h.encoding.name@ == "text"@ && h.encoding.id == ENC_EXT,
        h.format.name@ == "generic"@ && h.format.id == FMT_GENERIC,
    ensures
        written_document(v, None) == written_document(v, Some(h)),
{
}

impl KvObject {
    /// Appends the document that holds `self` in the given format. Its tables
    /// hold no key twice, and where the text format can express `self` (and
    /// the header's names hold no `>`), reading the document gives `self` back.
    pub fn serialize(&self, out: &mut String, serialization_format: KvFormat, header: Option<&KvHeader>)
        requires
            writable(self@, usize::MAX as int),
        ensures
            final(out)@ == old(out)@ + written_document(self@, header_view(header)),
            all_keys_distinct(self@),
            expressible(self@) && header_names_plain(header_view(header)) ==> spec_parse_kv3_text(
                written_document(self@, header_view(header)),
            ) == Ok::<KvValue, KvParseErrorView>(self@),
    {
        match serialization_format {
            KvFormat::Kv3Text => {
                let (encoding, format) = match header {
                    Some(h) => (h.encoding.to_text(), h.format.to_text()),
                    None => {
                        let e = Kv3Id { name: String::from_str("text"), id: ENC_EXT };
                        let f = Kv3Id { name: String::from_str("generic"), id: FMT_GENERIC };
                        (e.to_text(), f.to_text())
                    },
                };
                out.append("<!-- kv3 encoding:");
                out.append(encoding.as_str());
                out.append(" format:");
                out.append(format.as_str());
                out.append(" -->");
                out.append(NEW_LINE);
                serialize_object(out, self, 0);
                out.append(NEW_LINE);
                proof {
                    if expressible(self@) && header_names_plain(header_view(header)) {
                        lemma_expressible_round_trips(self@);
                        lemma_serialized_document_round_trip(self@, header_view(header));
                    }
                }
            },
        }
    }
}

}
