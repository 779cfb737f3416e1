//! Extensive sanity checks for experimental GC features.
//! * Write barrier coverage by memory snapshot comparisons.
use vstd::prelude::*;
use crate::gc::generational::remembered_set::RememberedSet;
use crate::gc::generational::write_barrier::{relevant_field, spec_relevant_field};
use crate::memory::{alloc_blob, blob_words, Memory};
use crate::object::{
    load, object_size, pointer_fields, spec_object_size, spec_pointer_fields, Trap,
};
use crate::page_alloc::{preserved_on, WordMemory};
use crate::types::{Bytes, Value, Words, TAG_MUTBOX};

verus! {

/// What a verification of a snapshot finds wrong.
#[derive(Clone, Copy, Debug, PartialEq, Eq, Structural)]
pub enum SanityError {
    /// The heap base lies above the heap pointer.
    HeapBaseAboveHp,
    /// The snapshot is longer than the heap.
    SnapshotTooLong,
    /// An element of the static roots is no mutable box; the address of the
    /// object.
    NotABox(usize),
    /// The tag of an object is not what it was; the address of the object.
    TagChanged(usize),
    /// A field that points into the young generation has changed and is not
    /// in the remembered set; the address of the field.
    MissingWriteBarrier(usize),
    /// A changed field was found and there is no remembered set.
    NoRememberedSet,
    /// The walk ran into a trap.
    Trapped(Trap),
}

/// A copy of the memory from address zero up to the heap pointer of the
/// time, kept in a blob.
#[derive(Clone, Copy, Debug)]
pub struct Snapshot {
    /// Address of the blob
    pub blob: usize,
}

impl Snapshot {
    /// Address of the first word of the copy.
    pub open spec fn payload(&self) -> int {
        self.blob + 8
    }

    /// Number of bytes of the copy, as the blob has it.
    pub open spec fn len(&self, words: Map<int, u32>) -> int {
        words[self.blob + 4] as int
    }
}

/// Take a memory snapshot: a copy of the `hp` bytes of memory from address
/// zero on, in a fresh blob.  To be initiated after GC run.  Fails where a
/// word of that range is not mapped.
pub fn take_snapshot<M: Memory>(mem: &mut M, hp: u32) -> (r: Result<Snapshot, Trap>)
    requires
        old(mem).wf(),
        old(mem).can_alloc_words(blob_words(Bytes(hp))),
    ensures
        final(mem).wf(),
        old(mem).allocated().subset_of(final(mem).allocated()),
        preserved_on(old(mem).words(), final(mem).words(), old(mem).allocated()),
        r is Err ==> r == Err::<Snapshot, Trap>(Trap::OutOfBounds),
        r is Ok <==> crate::page_alloc::mapped_range(final(mem).words(), 0, hp as int),
        r matches Ok(snapshot) ==> {
            &&& snapshot.len(final(mem).words()) == hp
            &&& final(mem).words()[snapshot.blob as int] == crate::types::TAG_BLOB
            &&& !old(mem).allocated().contains(snapshot.blob as int)
            &&& forall|k: int|
                0 <= k && 4 * k < hp && 4 * k < snapshot.blob ==> #[trigger] final(mem).words()[snapshot.payload() + 4 * k] == final(mem).words()[4 * k]
        },
{
    let length = Bytes(hp);
    let n_words: u32 = length.to_words().0;
    let blob: usize = alloc_blob(mem, length).get_ptr();
    let ghost taken = *mem;
    proof {
        assert(mem.words().dom().contains(blob + 4));
        mem.lemma_mapped(blob + 4);
        assert(mem.words().dom().contains(blob + (n_words + 2) * 4 - 4));
        mem.lemma_mapped(blob + (n_words + 2) * 4 - 4);
        assert(!old(mem).allocated().contains(blob as int));
    }
    let payload: usize = blob + 8;
    let mut i: u32 = 0;
    while i < n_words
        invariant
            mem.wf(),
            i <= n_words,
            n_words == crate::types::bytes_to_words(hp as int),
            payload == blob + 8,
            blob % 4 == 0,
            blob + (n_words + 2) * 4 <= 0xffff_ffff,
            mem.words().dom() == taken.words().dom(),
            mem.allocated() == taken.allocated(),
            crate::page_alloc::mapped_range(mem.words(), blob as int, blob + (n_words + 2) * 4),
            crate::page_alloc::fresh_range(
                old(mem).allocated(),
                taken.allocated(),
                blob as int,
                blob + (n_words + 2) * 4,
            ),
            old(mem).allocated().subset_of(taken.allocated()),
            preserved_on(old(mem).words(), mem.words(), old(mem).allocated()),
            mem.words()[blob as int] == crate::types::TAG_BLOB,
            mem.words()[blob + 4] == hp,
            crate::page_alloc::mapped_range(mem.words(), 0, 4 * i),
            forall|k: int|
                0 <= k < i && 4 * k < blob ==> #[trigger] mem.words()[payload + 4 * k]
                    == mem.words()[4 * k],
        decreases n_words - i,
    {
        let from: usize = i as usize * 4;
        let w: u32 = match load(mem, from) {
            Ok(w) => w,
            Err(trap) => {
                return Err(trap);
            },
        };
        let to: usize = payload + i as usize * 4;
        let ghost prev = *mem;
        proof {
            assert(mem.words().dom().contains(to as int));
            mem.lemma_mapped(to as int);
            assert(!old(mem).allocated().contains(to as int));
        }
        mem.store(to, w);
        proof {
            assert(mem.words().dom() =~= taken.words().dom());
            assert forall|k: int| 0 <= k < i + 1 && 4 * k < blob implies #[trigger] mem.words()[payload
                + 4 * k] == mem.words()[4 * k] by {
                if k < i {
                    assert(prev.words()[payload + 4 * k] == prev.words()[4 * k]);
                }
            }
            assert forall|a: int| 0 <= a < 4 * (i + 1) && a % 4 == 0 implies #[trigger] mem.words().dom().contains(
                a,
            ) by {
                if a < 4 * i {
                    assert(prev.words().dom().contains(a));
                }
            }
        }
        i = i + 1;
    }
    proof {
        assert forall|a: int| 0 <= a < hp && a % 4 == 0 implies #[trigger] mem.words().dom().contains(
            a,
        ) by {
            assert(a < 4 * n_words);
        }
    }
    Ok(Snapshot { blob })
}

/// The snapshot and the remembered set against which the memory is
/// verified.  Either may be missing.
pub struct SanityChecks {
    pub snapshot: Option<Snapshot>,
    pub remembered_set: Option<RememberedSet>,
}

/// The values of a remembered set that may be missing.
pub open spec fn recorded_values(remembered_set: Option<RememberedSet>) -> Option<Seq<Value>> {
    match remembered_set {
        Some(set) => Some(set@),
        None => None,
    }
}

/// Whether `value` is in the remembered set; an error where there is no
/// remembered set.
pub open spec fn spec_recorded(recorded: Option<Seq<Value>>, value: u32) -> Result<
    bool,
    SanityError,
> {
    match recorded {
        None => Err(SanityError::NoRememberedSet),
        Some(values) => Ok(values.contains(Value(value))),
    }
}

/// The outcome of the verification of the field at `field` against the
/// copy of the memory at `payload`: a field that has changed must be in the
/// remembered set.
pub open spec fn spec_verify_field(
    words: Map<int, u32>,
    payload: int,
    recorded: Option<Seq<Value>>,
    field: int,
) -> Result<(), SanityError> {
    if !words.dom().contains(field) || !words.dom().contains(payload + field) {
        Err(SanityError::Trapped(Trap::OutOfBounds))
    } else if words[payload + field] != words[field] {
        match spec_recorded(recorded, field as u32) {
            Err(error) => Err(error),
            Ok(true) => Ok(()),
            Ok(false) => Err(SanityError::MissingWriteBarrier(field as usize)),
        }
    } else {
        Ok(())
    }
}

/// The outcome for the field at `field`: it is verified where it is
/// relevant.
pub open spec fn spec_check_field(
    words: Map<int, u32>,
    payload: int,
    recorded: Option<Seq<Value>>,
    last_free: int,
    field: int,
) -> Result<(), SanityError> {
    if spec_relevant_field(words, field, last_free) {
        spec_verify_field(words, payload, recorded, field)
    } else {
        Ok(())
    }
}

/// The outcome for the fields `i` to `n` of the fields from `first` on: the
/// first error that is found.
pub open spec fn spec_verify_fields(
    words: Map<int, u32>,
    payload: int,
    recorded: Option<Seq<Value>>,
    last_free: int,
    first: int,
    i: int,
    n: int,
) -> Result<(), SanityError>
    decreases n - i,
{
    if i >= n {
        Ok(())
    } else {
        match spec_check_field(words, payload, recorded, last_free, first + 4 * i) {
            Err(error) => Err(error),
            Ok(()) => spec_verify_fields(words, payload, recorded, last_free, first, i + 1, n),
        }
    }
}

/// The outcome for the static root that the word at `elem` points to.
pub open spec fn spec_verify_root(
    words: Map<int, u32>,
    payload: int,
    recorded: Option<Seq<Value>>,
    last_free: int,
    elem: int,
) -> Result<(), SanityError> {
    let current = Value(words[elem]).spec_get_ptr();
    if !words.dom().contains(elem) || !words.dom().contains(current) {
        Err(SanityError::Trapped(Trap::OutOfBounds))
    } else if words[current] != TAG_MUTBOX {
        Err(SanityError::NotABox(current as usize))
    } else {
        spec_check_field(words, payload, recorded, last_free, current + 4)
    }
}

/// The outcome for the elements `i` to `len` of the array of static roots at
/// `root_array`.
pub open spec fn spec_verify_roots(
    words: Map<int, u32>,
    payload: int,
    recorded: Option<Seq<Value>>,
    last_free: int,
    root_array: int,
    i: int,
    len: int,
) -> Result<(), SanityError>
    decreases len - i,
{
    if i >= len {
        Ok(())
    } else {
        match spec_verify_root(words, payload, recorded, last_free, root_array + 8 + 4 * i) {
            Err(error) => Err(error),
            Ok(()) => spec_verify_roots(
                words,
                payload,
                recorded,
                last_free,
                root_array,
                i + 1,
                len,
            ),
        }
    }
}

/// The outcome for the static roots.
pub open spec fn spec_verify_static_roots(
    words: Map<int, u32>,
    payload: int,
    recorded: Option<Seq<Value>>,
    last_free: int,
    static_roots: Value,
) -> Result<(), SanityError> {
    let root_array = static_roots.spec_get_ptr();
    if !words.dom().contains(root_array) || !words.dom().contains(root_array + 4) {
        Err(SanityError::Trapped(Trap::OutOfBounds))
    } else {
        spec_verify_roots(
            words,
            payload,
            recorded,
            last_free,
            root_array,
            0,
            words[root_array + 4] as int,
        )
    }
}

/// The outcome for the object at `pointer`, and its size: its tag must be
/// what it is in the copy, and its fields are verified.
pub open spec fn spec_verify_object(
    words: Map<int, u32>,
    payload: int,
    recorded: Option<Seq<Value>>,
    last_free: int,
    pointer: int,
) -> Result<Words<u32>, SanityError> {
    if !words.dom().contains(pointer) || !words.dom().contains(payload + pointer) {
        Err(SanityError::Trapped(Trap::OutOfBounds))
    } else if words[pointer] != words[payload + pointer] {
        Err(SanityError::TagChanged(pointer as usize))
    } else {
        match spec_pointer_fields(words, pointer, words[pointer]) {
            Err(trap) => Err(SanityError::Trapped(trap)),
            Ok(fields) => match spec_verify_fields(
                words,
                payload,
                recorded,
                last_free,
                fields.0 as int,
                0,
                fields.1 as int,
            ) {
                Err(error) => Err(error),
                Ok(()) => match spec_object_size(words, pointer) {
                    Err(trap) => Err(SanityError::Trapped(trap)),
                    Ok(size) => if size.0 == 0 {
                        Err(SanityError::Trapped(Trap::InvalidObject))
                    } else {
                        Ok(size)
                    },
                },
            },
        }
    }
}

/// The outcome for the objects from `pointer` up to `end`.
pub open spec fn spec_verify_objects(
    words: Map<int, u32>,
    payload: int,
    recorded: Option<Seq<Value>>,
    last_free: int,
    pointer: int,
    end: int,
) -> Result<(), SanityError>
    decreases
        (if end > pointer {
            end - pointer
        } else {
            0
        }),
{
    if pointer >= end {
        Ok(())
    } else {
        match spec_verify_object(words, payload, recorded, last_free, pointer) {
            Err(error) => Err(error),
            Ok(size) => if size.0 > 0 {
                spec_verify_objects(
                    words,
                    payload,
                    recorded,
                    last_free,
                    pointer + 4 * size.0,
                    end,
                )
            } else {
                Ok(())
            },
        }
    }
}

/// The outcome for the heap from `base` on, as far as the snapshot reaches.
pub open spec fn spec_verify_heap(
    words: Map<int, u32>,
    snapshot: Snapshot,
    recorded: Option<Seq<Value>>,
    base: int,
    last_free: int,
    limit: int,
) -> Result<(), SanityError> {
    if !words.dom().contains(snapshot.blob + 4) {
        Err(SanityError::Trapped(Trap::OutOfBounds))
    } else if snapshot.len(words) > limit {
        Err(SanityError::SnapshotTooLong)
    } else {
        spec_verify_objects(
            words,
            snapshot.payload(),
            recorded,
            last_free,
            base,
            snapshot.len(words),
        )
    }
}

impl SanityChecks {
    /// The outcome of the verification of the memory against the snapshot.
    /// Nothing is verified where no snapshot has been taken.
    pub open spec fn spec_verify_snapshot(
        &self,
        words: Map<int, u32>,
        heap_base: int,
        last_free: int,
        hp: int,
        static_roots: Value,
        verify_roots: bool,
    ) -> Result<(), SanityError> {
        let recorded = recorded_values(self.remembered_set);
        if heap_base > hp {
            Err(SanityError::HeapBaseAboveHp)
        } else {
            match self.snapshot {
                None => Ok(()),
                Some(snapshot) => {
                    let roots = if verify_roots {
                        spec_verify_static_roots(
                            words,
                            snapshot.payload(),
                            recorded,
                            last_free,
                            static_roots,
                        )
                    } else {
                        Ok(())
                    };
                    match roots {
                        Err(error) => Err(error),
                        Ok(()) => spec_verify_heap(
                            words,
                            snapshot,
                            recorded,
                            heap_base,
                            last_free,
                            hp,
                        ),
                    }
                },
            }
        }
    }

    /// Verify write barrier coverage by comparing the memory against the
    /// previous snapshot.  To be initiated before the next GC run.  No effect
    /// if no snapshot has been taken.
    pub fn verify_snapshot<M: WordMemory>(
        &self,
        mem: &M,
        heap_base: u32,
        last_free: u32,
        hp: u32,
        static_roots: Value,
        verify_roots: bool,
    ) -> (r: Result<(), SanityError>)
        requires
            mem.wf(),
        ensures
            r == self.spec_verify_snapshot(
                mem.words(),
                heap_base as int,
                last_free as int,
                hp as int,
                static_roots,
                verify_roots,
            ),
    {
        if heap_base > hp {
            return Err(SanityError::HeapBaseAboveHp);
        }
        let snapshot = match self.snapshot {
            Some(snapshot) => snapshot,
            None => {
                return Ok(());
            },
        };
        if verify_roots {
            match self.verify_static_roots(mem, snapshot, static_roots, last_free as usize) {
                Ok(()) => {},
                Err(error) => {
                    return Err(error);
                },
            }
        }
        self.verify_heap(mem, snapshot, heap_base as usize, last_free as usize, hp as usize)
    }

    /// Verifies the fields of the static roots.
    pub fn verify_static_roots<M: WordMemory>(
        &self,
        mem: &M,
        snapshot: Snapshot,
        static_roots: Value,
        last_free: usize,
    ) -> (r: Result<(), SanityError>)
        requires
            mem.wf(),
        ensures
            r == spec_verify_static_roots(
                mem.words(),
                snapshot.payload(),
                recorded_values(self.remembered_set),
                last_free as int,
                static_roots,
            ),
    {
        let root_array: usize = static_roots.get_ptr();
        if !mem.contains(root_array) {
            return Err(SanityError::Trapped(Trap::OutOfBounds));
        }
        proof {
            mem.lemma_mapped(root_array as int);
        }
        if !mem.contains(root_array + 4) {
            return Err(SanityError::Trapped(Trap::OutOfBounds));
        }
        proof {
            mem.lemma_mapped(root_array + 4);
        }
        let len: u32 = mem.read_word(root_array + 4);
        let ghost recorded = recorded_values(self.remembered_set);
        let mut elem: usize = root_array + 8;
        let mut index: u32 = 0;
        while index < len
            invariant
                mem.wf(),
                index <= len,
                elem == root_array + 8 + 4 * index,
                elem <= 0xffff_ffff,
                root_array == static_roots.spec_get_ptr(),
                mem.words().dom().contains(root_array as int),
                mem.words().dom().contains(root_array + 4),
                len == mem.words()[root_array + 4],
                recorded == recorded_values(self.remembered_set),
                spec_verify_roots(
                    mem.words(),
                    snapshot.payload(),
                    recorded,
                    last_free as int,
                    root_array as int,
                    0,
                    len as int,
                ) == spec_verify_roots(
                    mem.words(),
                    snapshot.payload(),
                    recorded,
                    last_free as int,
                    root_array as int,
                    index as int,
                    len as int,
                ),
            decreases len - index,
        {
            proof {
                assert(spec_verify_roots(
                    mem.words(),
                    snapshot.payload(),
                    recorded,
                    last_free as int,
                    root_array as int,
                    index as int,
                    len as int,
                ) == (match spec_verify_root(
                    mem.words(),
                    snapshot.payload(),
                    recorded,
                    last_free as int,
                    root_array + 8 + 4 * index,
                ) {
                    Err(error) => Err(error),
                    Ok(()) => spec_verify_roots(
                        mem.words(),
                        snapshot.payload(),
                        recorded,
                        last_free as int,
                        root_array as int,
                        index + 1,
                        len as int,
                    ),
                }));
            }
            if !mem.contains(elem) {
                return Err(SanityError::Trapped(Trap::OutOfBounds));
            }
            proof {
                mem.lemma_mapped(elem as int);
            }
            let current: usize = Value::from_raw(mem.read_word(elem)).get_ptr();
            if !mem.contains(current) {
                return Err(SanityError::Trapped(Trap::OutOfBounds));
            }
            proof {
                mem.lemma_mapped(current as int);
            }
            if mem.read_word(current) != TAG_MUTBOX {
                return Err(SanityError::NotABox(current));
            }
            proof {
                mem.lemma_mapped(current as int);
            }
            match self.check_field(mem, snapshot, current + 4, last_free) {
                Ok(()) => {},
                Err(error) => {
                    return Err(error);
                },
            }
            elem = elem + 4;
            index = index + 1;
        }
        Ok(())
    }

    /// Verifies the field at `current_field` where it is relevant.
    fn check_field<M: WordMemory>(
        &self,
        mem: &M,
        snapshot: Snapshot,
        current_field: usize,
        last_free: usize,
    ) -> (r: Result<(), SanityError>)
        requires
            mem.wf(),
        ensures
            r == spec_check_field(
                mem.words(),
                snapshot.payload(),
                recorded_values(self.remembered_set),
                last_free as int,
                current_field as int,
            ),
    {
        if relevant_field(mem, current_field, last_free) {
            self.verify_field(mem, snapshot, current_field)
        } else {
            Ok(())
        }
    }

    /// Verifies the heap from `base` on, as far as the snapshot reaches:
    /// every object has the tag that it had, and every relevant field that
    /// has changed is in the remembered set.
    pub fn verify_heap<M: WordMemory>(
        &self,
        mem: &M,
        snapshot: Snapshot,
        base: usize,
        last_free: usize,
        limit: usize,
    ) -> (r: Result<(), SanityError>)
        requires
            mem.wf(),
        ensures
            r == spec_verify_heap(
                mem.words(),
                snapshot,
                recorded_values(self.remembered_set),
                base as int,
                last_free as int,
                limit as int,
            ),
    {
        if snapshot.blob > 0xffff_ffff - 8 || !mem.contains(snapshot.blob + 4) {
            proof {
                if mem.words().dom().contains(snapshot.blob + 4) {
                    mem.lemma_mapped(snapshot.blob + 4);
                }
            }
            return Err(SanityError::Trapped(Trap::OutOfBounds));
        }
        let snapshot_len: usize = mem.read_word(snapshot.blob + 4) as usize;
        if snapshot_len > limit {
            return Err(SanityError::SnapshotTooLong);
        }
        let payload: usize = snapshot.blob + 8;
        let ghost recorded = recorded_values(self.remembered_set);
        let mut pointer: usize = base;
        while pointer < snapshot_len
            invariant
                mem.wf(),
                payload == snapshot.payload(),
                payload <= 0xffff_ffff,
                snapshot.blob <= 0xffff_ffff,
                snapshot_len <= 0xffff_ffff,
                mem.words().dom().contains(snapshot.blob + 4),
                snapshot_len == snapshot.len(mem.words()),
                snapshot_len <= limit,
                recorded == recorded_values(self.remembered_set),
                spec_verify_objects(
                    mem.words(),
                    payload as int,
                    recorded,
                    last_free as int,
                    base as int,
                    snapshot_len as int,
                ) == spec_verify_objects(
                    mem.words(),
                    payload as int,
                    recorded,
                    last_free as int,
                    pointer as int,
                    snapshot_len as int,
                ),
            decreases snapshot_len - pointer,
        {
            proof {
                assert(spec_verify_objects(
                    mem.words(),
                    payload as int,
                    recorded,
                    last_free as int,
                    pointer as int,
                    snapshot_len as int,
                ) == (match spec_verify_object(
                    mem.words(),
                    payload as int,
                    recorded,
                    last_free as int,
                    pointer as int,
                ) {
                    Err(error) => Err(error),
                    Ok(size) => if size.0 > 0 {
                        spec_verify_objects(
                            mem.words(),
                            payload as int,
                            recorded,
                            last_free as int,
                            pointer + 4 * size.0,
                            snapshot_len as int,
                        )
                    } else {
                        Ok(())
                    },
                }));
            }
            let size: Words<u32> = match self.verify_object(mem, snapshot, pointer, last_free) {
                Ok(size) => size,
                Err(error) => {
                    return Err(error);
                },
            };
            if size.0 as usize > (snapshot_len - pointer) / 4 {
                // the object runs up to the end of the snapshot, or beyond it
                proof {
                    assert(spec_verify_objects(
                        mem.words(),
                        payload as int,
                        recorded,
                        last_free as int,
                        pointer + 4 * size.0,
                        snapshot_len as int,
                    ) == Ok::<(), SanityError>(()));
                }
                return Ok(());
            }
            pointer = pointer + size.0 as usize * 4;
        }
        Ok(())
    }

    /// Verifies the object at `pointer` and hands its size back.
    fn verify_object<M: WordMemory>(
        &self,
        mem: &M,
        snapshot: Snapshot,
        pointer: usize,
        last_free: usize,
    ) -> (r: Result<Words<u32>, SanityError>)
        requires
            mem.wf(),
            snapshot.blob <= 0xffff_ffff,
            pointer <= 0xffff_ffff,
        ensures
            r == spec_verify_object(
                mem.words(),
                snapshot.payload(),
                recorded_values(self.remembered_set),
                last_free as int,
                pointer as int,
            ),
    {
        let payload: u64 = snapshot.blob as u64 + 8;
        let previous: u64 = payload + pointer as u64;
        if !mem.contains(pointer) || previous > 0xffff_ffff || !mem.contains(previous as usize) {
            proof {
                if mem.words().dom().contains(previous as int) {
                    mem.lemma_mapped(previous as int);
                }
            }
            return Err(SanityError::Trapped(Trap::OutOfBounds));
        }
        let tag: u32 = mem.read_word(pointer);
        if tag != mem.read_word(previous as usize) {
            return Err(SanityError::TagChanged(pointer));
        }
        let (first, n_fields) = match pointer_fields(mem, pointer, tag) {
            Ok(fields) => fields,
            Err(trap) => {
                return Err(SanityError::Trapped(trap));
            },
        };
        let ghost recorded = recorded_values(self.remembered_set);
        let ghost words = mem.words();
        let mut current_field: u64 = first as u64;
        let mut i: u32 = 0;
        while i < n_fields
            invariant
                mem.wf(),
                words == mem.words(),
                i <= n_fields,
                first <= 0xffff_ffff,
                words.dom().contains(pointer as int),
                words.dom().contains(snapshot.payload() + pointer),
                words[pointer as int] == words[snapshot.payload() + pointer],
                tag == words[pointer as int],
                spec_pointer_fields(words, pointer as int, tag) == Ok::<(usize, u32), Trap>(
                    (first, n_fields),
                ),
                current_field == first + 4 * i,
                recorded == recorded_values(self.remembered_set),
                spec_verify_fields(
                    words,
                    snapshot.payload(),
                    recorded,
                    last_free as int,
                    first as int,
                    0,
                    n_fields as int,
                ) == spec_verify_fields(
                    words,
                    snapshot.payload(),
                    recorded,
                    last_free as int,
                    first as int,
                    i as int,
                    n_fields as int,
                ),
            decreases n_fields - i,
        {
            proof {
                assert(spec_verify_fields(
                    words,
                    snapshot.payload(),
                    recorded,
                    last_free as int,
                    first as int,
                    i as int,
                    n_fields as int,
                ) == (match spec_check_field(
                    words,
                    snapshot.payload(),
                    recorded,
                    last_free as int,
                    first + 4 * i,
                ) {
                    Err(error) => Err(error),
                    Ok(()) => spec_verify_fields(
                        words,
                        snapshot.payload(),
                        recorded,
                        last_free as int,
                        first as int,
                        i + 1,
                        n_fields as int,
                    ),
                }));
            }
            if current_field <= 0xffff_ffff {
                match self.check_field(mem, snapshot, current_field as usize, last_free) {
                    Ok(()) => {},
                    Err(error) => {
                        return Err(error);
                    },
                }
            } else {
                proof {
                    if mem.words().dom().contains(current_field as int) {
                        mem.lemma_mapped(current_field as int);
                    }
                }
            }
            current_field = current_field + 4;
            i = i + 1;
        }
        proof {
            assert(spec_verify_fields(
                words,
                snapshot.payload(),
                recorded,
                last_free as int,
                first as int,
                n_fields as int,
                n_fields as int,
            ) == Ok::<(), SanityError>(()));
        }
        match object_size(mem, pointer) {
            Err(trap) => Err(SanityError::Trapped(trap)),
            Ok(size) => {
                if size.0 == 0 {
                    Err(SanityError::Trapped(Trap::InvalidObject))
                } else {
                    Ok(size)
                }
            },
        }
    }

    /// Verifies the field at `current_field`: where it is not what it is in
    /// the snapshot, it must be in the remembered set.
    pub fn verify_field<M: WordMemory>(&self, mem: &M, snapshot: Snapshot, current_field: usize) -> (r:
        Result<(), SanityError>)
        requires
            mem.wf(),
        ensures
            r == spec_verify_field(
                mem.words(),
                snapshot.payload(),
                recorded_values(self.remembered_set),
                current_field as int,
            ),
    {
        if snapshot.blob > 0xffff_ffff || current_field > 0xffff_ffff {
            proof {
                if mem.words().dom().contains(snapshot.payload() + current_field) {
                    mem.lemma_mapped(snapshot.payload() + current_field);
                }
                if mem.words().dom().contains(current_field as int) {
                    mem.lemma_mapped(current_field as int);
                }
            }
            return Err(SanityError::Trapped(Trap::OutOfBounds));
        }
        let memory_copy: u64 = snapshot.blob as u64 + 8;
        let previous_field: u64 = memory_copy + current_field as u64;
        if !mem.contains(current_field) || previous_field > 0xffff_ffff || !mem.contains(
            previous_field as usize,
        ) {
            proof {
                if mem.words().dom().contains(previous_field as int) {
                    mem.lemma_mapped(previous_field as int);
                }
            }
            return Err(SanityError::Trapped(Trap::OutOfBounds));
        }
        proof {
            mem.lemma_mapped(current_field as int);
        }
        if mem.read_word(previous_field as usize) != mem.read_word(current_field) {
            match self.recorded(current_field as u32) {
                Err(error) => Err(error),
                Ok(true) => Ok(()),
                Ok(false) => Err(SanityError::MissingWriteBarrier(current_field)),
            }
        } else {
            Ok(())
        }
    }

    /// Whether `value` is in the remembered set.
    pub fn recorded(&self, value: u32) -> (r: Result<bool, SanityError>)
        ensures
            r == spec_recorded(recorded_values(self.remembered_set), value),
    {
        match &self.remembered_set {
            None => Err(SanityError::NoRememberedSet),
            Some(remembered_set) => {
                let mut iterator = remembered_set.iterate();
                while iterator.has_next()
                    invariant
                        self.remembered_set == Some(*remembered_set),
                        iterator.values() == remembered_set@,
                        0 <= iterator.position() <= remembered_set@.len(),
                        forall|k: int|
                            0 <= k < iterator.position() ==> remembered_set@[k] != Value(value),
                    decreases remembered_set@.len() - iterator.position(),
                {
                    if iterator.current().get_raw() == value {
                        proof {
                            let k = iterator.position();
                            assert(remembered_set@[k] == Value(value));
                            assert(remembered_set@.contains(Value(value)));
                            assert(self.remembered_set == Some(*remembered_set));
                        }
                        return Ok(true);
                    }
                    iterator.next();
                }
                proof {
                    assert(self.remembered_set == Some(*remembered_set));
                }
                Ok(false)
            },
        }
    }
}

/// The write barrier ran for every store since the snapshot: each relevant
/// field that is not what it is in the copy at `payload` is among `values`.
pub open spec fn barriers_ran(
    words: Map<int, u32>,
    payload: int,
    values: Seq<Value>,
    last_free: int,
) -> bool {
    forall|field: int|
        #![trigger spec_relevant_field(words, field, last_free)]
        spec_relevant_field(words, field, last_free) && words[payload + field] != words[field]
            ==> values.contains(Value(field as u32))
}

/// Whether an outcome reports a missing write barrier.
pub open spec fn missing_barrier<T>(r: Result<T, SanityError>) -> bool {
    r matches Err(SanityError::MissingWriteBarrier(_))
}

/// No field from `first` on in a row is reported where the barrier ran.
pub proof fn lemma_fields_covered(
    words: Map<int, u32>,
    payload: int,
    values: Seq<Value>,
    last_free: int,
    first: int,
    i: int,
    n: int,
)
    requires
        barriers_ran(words, payload, values, last_free),
    ensures
        !missing_barrier(spec_verify_fields(words, payload, Some(values), last_free, first, i, n)),
    decreases n - i,
{
    if i < n {
        lemma_fields_covered(words, payload, values, last_free, first, i + 1, n);
    }
}

/// No field of a static root is reported where the barrier ran.
pub proof fn lemma_roots_covered(
    words: Map<int, u32>,
    payload: int,
    values: Seq<Value>,
    last_free: int,
    root_array: int,
    i: int,
    len: int,
)
    requires
        barriers_ran(words, payload, values, last_free),
    ensures
        !missing_barrier(
            spec_verify_roots(words, payload, Some(values), last_free, root_array, i, len),
        ),
    decreases len - i,
{
    if i < len {
        lemma_roots_covered(words, payload, values, last_free, root_array, i + 1, len);
    }
}

/// No field of an object from `pointer` up to `end` is reported where the
/// barrier ran.
pub proof fn lemma_objects_covered(
    words: Map<int, u32>,
    payload: int,
    values: Seq<Value>,
    last_free: int,
    pointer: int,
    end: int,
)
    requires
        barriers_ran(words, payload, values, last_free),
    ensures
        !missing_barrier(
            spec_verify_objects(words, payload, Some(values), last_free, pointer, end),
        ),
    decreases
        (if end > pointer {
            end - pointer
        } else {
            0
        }),
{
    if pointer < end {
        match spec_verify_object(words, payload, Some(values), last_free, pointer) {
            Err(_) => {
                if words.dom().contains(pointer) && words.dom().contains(payload + pointer)
                    && words[pointer] == words[payload + pointer] {
                    match spec_pointer_fields(words, pointer, words[pointer]) {
                        Ok(fields) => {
                            lemma_fields_covered(
                                words,
                                payload,
                                values,
                                last_free,
                                fields.0 as int,
                                0,
                                fields.1 as int,
                            );
                        },
                        Err(_) => {},
                    }
                }
            },
            Ok(size) => {
                if size.0 > 0 {
                    lemma_objects_covered(
                        words,
                        payload,
                        values,
                        last_free,
                        pointer + 4 * size.0,
                        end,
                    );
                }
            },
        }
    }
}

/// Where the write barrier ran for every store of a pointer since the
/// snapshot was taken, the verification against the snapshot reports no
/// missing write barrier.
pub proof fn lemma_barriers_cover(
    checks: SanityChecks,
    words: Map<int, u32>,
    heap_base: int,
    last_free: int,
    hp: int,
    static_roots: Value,
    verify_roots: bool,
)
    requires
        checks.snapshot matches Some(snapshot) ==> checks.remembered_set matches Some(set)
            && barriers_ran(words, snapshot.payload(), set@, last_free),
    ensures
        !missing_barrier(
            checks.spec_verify_snapshot(
                words,
                heap_base,
                last_free,
                hp,
                static_roots,
                verify_roots,
            ),
        ),
{
    if let Some(snapshot) = checks.snapshot {
        let values = checks.remembered_set->Some_0@;
        let root_array = static_roots.spec_get_ptr();
        lemma_roots_covered(
            words,
            snapshot.payload(),
            values,
            last_free,
            root_array,
            0,
            words[root_array + 4] as int,
        );
        lemma_objects_covered(
            words,
            snapshot.payload(),
            values,
            last_free,
            heap_base,
            snapshot.len(words),
        );
    }
}

/// A store into a field after which the write barrier runs keeps
/// `barriers_ran`: `after` is the remembered set as `post_write_barrier`
/// leaves it, and the store goes to no word of the copy.
pub proof fn lemma_store_keeps_barriers(
    words: Map<int, u32>,
    payload: int,
    before: Seq<Value>,
    after: Seq<Value>,
    last_free: int,
    field: int,
    value: u32,
)
    requires
        barriers_ran(words, payload, before, last_free),
        words.dom().contains(field),
        forall|f: int| #[trigger] words.dom().contains(f) ==> payload + f != field,
        spec_relevant_field(words.insert(field, value), field, last_free) ==> after.contains(
            Value(field as u32),
        ),
        forall|v: Value| before.contains(v) ==> after.contains(v),
    ensures
        barriers_ran(words.insert(field, value), payload, after, last_free),
{
    let stored = words.insert(field, value);
    assert forall|f: int|
        #![trigger spec_relevant_field(stored, f, last_free)]
        spec_relevant_field(stored, f, last_free) && stored[payload + f]
            != stored[f] implies after.contains(Value(f as u32)) by {
        if f != field {
            assert(words.dom().contains(f));
            assert(spec_relevant_field(words, f, last_free));
            assert(before.contains(Value(f as u32)));
        }
    }
}

} // verus!
