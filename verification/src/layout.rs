//! Where the columns of a batched dataset lie in its files: the arithmetic
//! of offsets, apart from the reading.

use vstd::prelude::*;

verus! {

/// The length of the header of a file.
pub const ARROW_MAGIC_OFFSET: u64 = 12;

/// Why the metadata of a batch could not be used.
#[derive(Debug)]
pub struct MetadataParsingError<'msg>(pub &'msg str);

impl<'msg> MetadataParsingError<'msg> {
    /// What went wrong.
    pub fn message(&self) -> (res: &'msg str)
        ensures
            res == self.0,
    {
        self.0
    }
}

/// Where the first message of a file starts, for metadata of the given
/// size: behind the header and the metadata, the remainder of that offset
/// by eight, and four bytes that mark a continuation.
pub open spec fn data_start_of(meta_size: u32) -> int {
    ARROW_MAGIC_OFFSET + meta_size + (ARROW_MAGIC_OFFSET + meta_size) % 8 + 4
}

/// Where the first message of a file starts.
pub fn data_start(meta_size: u32) -> (start: u64)
    ensures
        start == data_start_of(meta_size),
{
    let behind: u64 = ARROW_MAGIC_OFFSET + meta_size as u64;
    behind + behind % 8 + 4
}

/// The number of bytes of a column of `num_rows` values of `type_size` bytes
/// each, if it can be counted.
pub fn row_size_in_bytes(num_rows: usize, type_size: usize) -> (res: Option<usize>)
    ensures
        res is Some <==> num_rows * type_size <= usize::MAX,
        res is Some ==> res->Some_0 == num_rows * type_size,
{
    if type_size == 0 {
        assert(num_rows * type_size == 0) by (nonlinear_arith)
            requires
                type_size == 0,
        ;
        return Some(0);
    }
    let most = usize::MAX / type_size;
    if num_rows > most {
        assert(num_rows * type_size > usize::MAX) by (nonlinear_arith)
            requires
                num_rows >= usize::MAX as int / type_size as int + 1,
                type_size > 0,
        ;
        return None;
    }
    assert(num_rows * type_size <= usize::MAX) by (nonlinear_arith)
        requires
            num_rows <= usize::MAX as int / type_size as int,
            type_size > 0,
    ;
    Some(num_rows * type_size)
}

/// Where the column at `index` lies: the number of the batch that holds it,
/// and the number of its data buffer in the metadata of a batch. Every
/// column has two buffers, of which the second holds the data.
pub open spec fn column_place_of(index: usize, cardinality_per_batch: usize) -> (int, int) {
    (
        index as int / cardinality_per_batch as int,
        (index as int % cardinality_per_batch as int) * 2 + 1,
    )
}

/// Where the column at `index` lies, in batches of `cardinality_per_batch`
/// columns each whose metadata lists `buffers` buffers. Refused where the
/// batches hold no column, or the metadata lists too few buffers.
pub fn column_place(index: usize, cardinality_per_batch: usize, buffers: usize) -> (res: Result<
    (usize, usize),
    MetadataParsingError<'static>,
>)
    ensures
        res is Ok <==> cardinality_per_batch > 0 && column_place_of(
            index,
            cardinality_per_batch,
        ).1 < buffers,
        res is Ok ==> (res->Ok_0.0 as int, res->Ok_0.1 as int) == column_place_of(
            index,
            cardinality_per_batch,
        ),
        res is Err ==> res->Err_0.0@ == (if cardinality_per_batch == 0 {
            "The batches hold no column"@
        } else {
            "No such column"@
        }),
{
    if cardinality_per_batch == 0 {
        return Err(MetadataParsingError("The batches hold no column"));
    }
    let batch = index / cardinality_per_batch;
    let within = index % cardinality_per_batch;
    if within >= buffers / 2 {
        return Err(MetadataParsingError("No such column"));
    }
    Ok((batch, within * 2 + 1))
}

/// The offset in its file of a buffer that starts `buffer_offset` bytes
/// behind the start of the message. Refused where the buffer would start
/// before the message, or beyond what an offset can say.
pub fn column_offset(start_of_message: u64, buffer_offset: i64) -> (res: Result<
    u64,
    MetadataParsingError<'static>,
>)
    ensures
        res is Ok <==> 0 <= buffer_offset && start_of_message + buffer_offset <= u64::MAX,
        res is Ok ==> res->Ok_0 == start_of_message + buffer_offset,
        res is Err ==> res->Err_0.0@ == (if buffer_offset < 0 {
            "A buffer starts before its message"@
        } else {
            "A buffer starts beyond the end of any file"@
        }),
{
    if buffer_offset < 0 {
        return Err(MetadataParsingError("A buffer starts before its message"));
    }
    let offset = buffer_offset as u64;
    if offset > u64::MAX - start_of_message {
        return Err(MetadataParsingError("A buffer starts beyond the end of any file"));
    }
    Ok(start_of_message + offset)
}

/// Whether the metadata lists two buffers for every column.
pub fn has_buffers_for(buffers: usize, cardinality_per_batch: usize) -> (ok: bool)
    ensures
        ok == (buffers == 2 * cardinality_per_batch),
{
    buffers % 2 == 0 && buffers / 2 == cardinality_per_batch
}

} // verus!
