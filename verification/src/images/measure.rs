//! The sizes of the pictures of an archive, gathered in one pass over it.

use crate::bytes::copy_bytes;
use crate::bytes::same_bytes;
use crate::images::archive::label_entry;
use crate::images::decode::{dimensions_of, header_of};
use crate::images::table::{names_of, PageTable};
use vstd::prelude::*;

verus! {

/// The sizes of the pictures that could be measured, by the names of their
/// entries.
#[derive(Debug)]
pub struct Measurements {
    sizes: Vec<(Vec<u8>, (u32, u32))>,
}

spec fn size_list(sizes: Seq<(Vec<u8>, (u32, u32))>) -> Seq<(Seq<u8>, (u32, u32))> {
    sizes.map_values(|entry: (Vec<u8>, (u32, u32))| (entry.0@, entry.1))
}

impl View for Measurements {
    type V = Seq<(Seq<u8>, (u32, u32))>;

    closed spec fn view(&self) -> Seq<(Seq<u8>, (u32, u32))> {
        size_list(self.sizes@)
    }
}

/// The size that was measured last under a name, among the first `n`.
pub open spec fn measured_size(
    sizes: Seq<(Seq<u8>, (u32, u32))>,
    name: Seq<u8>,
    n: int,
) -> Option<(u32, u32)>
    decreases n,
{
    if n <= 0 {
        None
    } else if sizes[n - 1].0 == name {
        Some(sizes[n - 1].1)
    } else {
        measured_size(sizes, name, n - 1)
    }
}

impl Measurements {
    /// Nothing measured yet.
    pub fn new() -> (measurements: Measurements)
        ensures
            measurements@.len() == 0,
    {
        Measurements { sizes: Vec::new() }
    }

    /// Measures an entry by its header. One that is no picture after all is left
    /// out; it keeps its place among the pages, and fails when it is drawn.
    pub fn record(&mut self, archive: &[u8], name: &[u8], bytes: &[u8])
        ensures
            final(self)@ == (match header_of(bytes@, None) {
                Ok(size) => old(self)@.push((name@, size)),
                Err(_) => old(self)@,
            }),
    {
        let label = label_entry(archive, name);
        let ghost before = self@;
        if let Ok(size) = dimensions_of(bytes, label.as_str()) {
            self.sizes.push((copy_bytes(name), size));
            assert(self@ =~= before.push((name@, size)));
        }
    }

    /// The size that was measured under a name.
    pub fn size(&self, name: &[u8]) -> (size: Option<(u32, u32)>)
        ensures
            size == measured_size(self@, name@, self@.len() as int),
    {
        let count: usize = self.sizes.len();
        let mut n: usize = count;
        while n > 0
            invariant
                n <= count,
                count == self.sizes@.len(),
                measured_size(self@, name@, n as int) == measured_size(
                    self@,
                    name@,
                    count as int,
                ),
            decreases n,
        {
            assert(self@[n - 1] == (self.sizes@[n - 1].0@, self.sizes@[n - 1].1));
            if same_bytes(self.sizes[n - 1].0.as_slice(), name) {
                return Some(self.sizes[n - 1].1);
            }
            n -= 1;
        }
        None
    }
}

/// The sizes of the pages of an archive, in their order, as far as they were
/// measured.
pub fn measure_pages(table: &PageTable, measurements: &Measurements) -> (sizes: Vec<
    Option<(u32, u32)>,
>)
    ensures
        sizes@ == names_of(table@.entries).map_values(
            |name: Seq<u8>|
                measured_size(measurements@, name, measurements@.len() as int),
        ),
{
    let entries = table.entries();
    let mut sizes: Vec<Option<(u32, u32)>> = Vec::new();
    let ghost wanted = names_of(table@.entries).map_values(
        |name: Seq<u8>| measured_size(measurements@, name, measurements@.len() as int),
    );
    let mut i: usize = 0;
    while i < entries.len()
        invariant
            i <= entries@.len(),
            crate::images::listing::entry_list(entries@) == table@.entries,
            wanted == names_of(table@.entries).map_values(
                |name: Seq<u8>| measured_size(measurements@, name, measurements@.len() as int),
            ),
            sizes@ == wanted.take(i as int),
        decreases entries@.len() - i,
    {
        sizes.push(measurements.size(entries[i].name.as_slice()));
        assert(table@.entries[i as int] == entries@[i as int]@);
        assert(sizes@ =~= wanted.take(i + 1));
        i += 1;
    }
    assert(sizes@ =~= wanted);
    sizes
}

/// What is measured under a name is the size that is given for it from now on,
/// and the sizes given for other names stay as they are.
pub proof fn law_the_last_measure_counts(
    sizes: Seq<(Seq<u8>, (u32, u32))>,
    name: Seq<u8>,
    size: (u32, u32),
    other: Seq<u8>,
)
    ensures
        ({
            let more = sizes.push((name, size));
            &&& measured_size(more, name, more.len() as int) == Some(size)
            &&& other != name ==> measured_size(more, other, more.len() as int) == measured_size(
                sizes,
                other,
                sizes.len() as int,
            )
        }),
{
    if other != name {
        lemma_earlier_measures(sizes, (name, size), other, sizes.len() as int);
    }
}

proof fn lemma_earlier_measures(
    sizes: Seq<(Seq<u8>, (u32, u32))>,
    measure: (Seq<u8>, (u32, u32)),
    name: Seq<u8>,
    n: int,
)
    requires
        n <= sizes.len(),
    ensures
        measured_size(sizes.push(measure), name, n) == measured_size(sizes, name, n),
    decreases n,
{
    if n > 0 {
        assert(sizes.push(measure)[n - 1] == sizes[n - 1]);
        lemma_earlier_measures(sizes, measure, name, n - 1);
    }
}

} // verus!
