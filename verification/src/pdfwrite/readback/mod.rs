//! What was written is read back.

pub mod scalars;
pub mod text;
pub mod values;

use crate::bytes::utf8;
use crate::number::unsigned_of;
use crate::pdfread::value::{value_at, ValueError, MAX_VALUE_DEPTH};
use crate::pdfwrite::laws::{law_decimal_reads_back, lemma_objects_grow, lemma_places};
use crate::pdfwrite::object::PdfValue;
use crate::pdfwrite::readback::values::{is_writable, law_an_object_is_read_back, read_as};
use crate::pdfwrite::tokenizer::object_tokens;
use crate::pdfwrite::writer::{append_outcome, object_bytes, objects_bytes, Numbered, Opened};
use vstd::prelude::*;

verus! {

/// What stands at the place of an object of an update is that object.
proof fn lemma_object_stands(file: Opened, objects: Seq<Numbered>, second: Seq<u8>, i: int) -> (rest:
    Seq<u8>)
    requires
        0 <= i < objects.len(),
        file.original.len() + objects_bytes(objects, objects.len()).len() <= u64::MAX,
        append_outcome(file, 0, objects, second) is Ok,
    ensures
        ({
            let (bytes, places) = append_outcome(file, 0, objects, second)->Ok_0;
            &&& places.len() == objects.len()
            &&& places[i].0 == objects[i].0
            &&& places[i].2 < bytes.len()
            &&& bytes.skip(places[i].2 as int) == object_bytes(objects[i]) + rest
        }),
{
    let (bytes, places) = append_outcome(file, 0, objects, second)->Ok_0;
    let n = objects.len();
    let original = file.original;
    lemma_places(objects, original.len(), n, i);
    lemma_objects_grow(objects, i as nat, n);
    lemma_objects_grow(objects, (i + 1) as nat, n);
    let before = objects_bytes(objects, i as nat);
    let upto = objects_bytes(objects, (i + 1) as nat);
    let all = objects_bytes(objects, n);
    let object = object_bytes(objects[i]);
    let at = (original.len() + before.len()) as int;
    let end = at + object.len();
    let rest = bytes.skip(end as int);
    assert(upto == before + object);
    assert(bytes.take((original + all).len() as int) =~= original + all);
    assert(object.len() > 0) by {
        law_decimal_reads_back(objects[i].0 as nat);
    }
    assert(bytes.skip(at) =~= object + rest) by {
        assert forall|k: int| 0 <= k < object.len() implies bytes.skip(at)[k] == object[k] by {
            assert(bytes[at + k] == (original + all)[at + k]);
            assert((original + all)[at + k] == all[before.len() + k]);
            assert(all.take(upto.len() as int)[before.len() + k] == upto[before.len() + k]);
        }
    }
    rest
}

/// The place that an update reports for an object is where the object is read
/// from: its value is the one that was appended, as far as a reader can tell.
pub proof fn law_an_appended_object_is_found(
    file: Opened,
    objects: Seq<Numbered>,
    second: Seq<u8>,
    i: int,
)
    requires
        0 <= i < objects.len(),
        is_writable(objects[i].2, MAX_VALUE_DEPTH as int),
        file.original.len() + objects_bytes(objects, objects.len()).len() <= u64::MAX,
    ensures
        append_outcome(file, 0, objects, second) matches Ok((bytes, places)) ==> {
            let tokens = object_tokens(bytes.skip(places[i].2 as int), 0);
            &&& places.len() == objects.len()
            &&& places[i].0 == objects[i].0
            &&& places[i].2 < bytes.len()
            &&& tokens.len() > 3
            &&& unsigned_of(tokens[0], u32::MAX as nat) == Some(objects[i].0 as nat)
            &&& unsigned_of(tokens[1], u16::MAX as nat) == Some(objects[i].1 as nat)
            &&& tokens[2] == utf8("obj"@)
            &&& value_at(tokens, 3, 0) == Ok::<(PdfValue, int), ValueError>(
                (read_as(objects[i].2), tokens.len() as int),
            )
        },
{
    if append_outcome(file, 0, objects, second) is Ok {
        let rest = lemma_object_stands(file, objects, second, i);
        law_an_object_is_read_back(objects[i].0, objects[i].1, objects[i].2, rest);
    }
}

} // verus!
