use vstd::prelude::*;

use crate::record::MAX_COUNT;
use crate::scan::{
    is_line_start, lemma_records_bounds, lemma_records_concat, lines_ok, parse_line, read_file,
    records_in, FormatError, ScanError,
};
use crate::store::{aggregate, lemma_aggregate_parts, lemma_aggregate_split, merge_all_maps, FinalInfo};

verus! {

/// Where worker `i` of `n` begins: `i` times the length divided by `n`.
pub open spec fn part_start(len: int, n: int, i: int) -> int {
    i * (len / n)
}

/// Where worker `i` of `n` ends; the last worker reads to the end.
pub open spec fn part_end(len: int, n: int, i: int) -> int {
    if i + 1 == n {
        len
    } else {
        (i + 1) * (len / n)
    }
}

/// The records that worker `i` of `n` reads from `data`.
pub open spec fn worker_records(data: Seq<u8>, n: int, i: int) -> Seq<(Seq<u8>, int)> {
    records_in(data, part_start(data.len() as int, n, i), part_end(data.len() as int, n, i))
}

/// The records of every worker, in worker order.
pub open spec fn all_worker_records(data: Seq<u8>, n: int) -> Seq<Seq<(Seq<u8>, int)>> {
    Seq::new(n as nat, |i: int| worker_records(data, n, i))
}

proof fn lemma_bounds(len: int, n: int, i: int)
    requires
        0 <= len,
        1 <= n,
        0 <= i < n,
    ensures
        0 <= part_start(len, n, i) <= part_end(len, n, i) <= len,
        i + 1 < n ==> part_start(len, n, i + 1) == part_end(len, n, i),
{
    let per = len / n;
    assert(0 <= per * n <= len) by (nonlinear_arith)
        requires
            per == len / n,
            n >= 1,
            len >= 0,
    ;
    assert(0 <= i * per <= (i + 1) * per) by (nonlinear_arith)
        requires
            per >= 0,
            i >= 0,
    ;
    assert(i * per <= len && (i + 1 < n ==> (i + 1) * per <= len)) by (nonlinear_arith)
        requires
            per * n <= len,
            per >= 0,
            0 <= i < n,
    ;
}

/// The bounds of worker `i` of `workers`, for a file of `file_len` bytes.
pub fn worker_range(file_len: usize, workers: usize, i: usize) -> (r: (usize, usize))
    requires
        workers >= 1,
        i < workers,
    ensures
        r.0 == part_start(file_len as int, workers as int, i as int),
        r.1 == part_end(file_len as int, workers as int, i as int),
        r.0 <= r.1 <= file_len,
{
    proof {
        lemma_bounds(file_len as int, workers as int, i as int);
    }
    let per = file_len / workers;
    let start = i * per;
    let end = if i + 1 == workers { file_len } else { (i + 1) * per };
    (start, end)
}

/// The first `m` workers together read the records of the lines that start
/// before the end of worker `m - 1`.
proof fn lemma_prefix(data: Seq<u8>, n: int, m: int)
    requires
        1 <= n,
        1 <= m <= n,
    ensures
        all_worker_records(data, n).subrange(0, m).flatten() == records_in(
            data,
            0,
            part_end(data.len() as int, n, m - 1),
        ),
        (forall|i: int| 0 <= i < m ==> lines_ok(
            data,
            part_start(data.len() as int, n, i),
            part_end(data.len() as int, n, i),
        )) <==> lines_ok(data, 0, part_end(data.len() as int, n, m - 1)),
    decreases m,
{
    let len = data.len() as int;
    let parts = all_worker_records(data, n).subrange(0, m);
    lemma_bounds(len, n, m - 1);
    parts.lemma_flatten_and_flatten_alt_are_equivalent();
    if m == 1 {
        assert(parts.drop_last() =~= Seq::<Seq<(Seq<u8>, int)>>::empty());
        parts.lemma_flatten_one_element();
        assert(parts.first() == worker_records(data, n, 0));
        assert(part_start(len, n, 0) == 0);
    } else {
        lemma_prefix(data, n, m - 1);
        lemma_bounds(len, n, m - 2);
        let init = all_worker_records(data, n).subrange(0, m - 1);
        init.lemma_flatten_and_flatten_alt_are_equivalent();
        assert(parts.drop_last() =~= init);
        let b = part_end(len, n, m - 2);
        assert(part_start(len, n, m - 1) == b);
        lemma_records_concat(data, 0, b, part_end(len, n, m - 1));
        let all_ok = forall|i: int|
            0 <= i < m ==> lines_ok(data, part_start(len, n, i), part_end(len, n, i));
        let init_ok = forall|i: int|
            0 <= i < m - 1 ==> lines_ok(data, part_start(len, n, i), part_end(len, n, i));
        assert(all_ok <==> (init_ok && lines_ok(data, b, part_end(len, n, m - 1))));
    }
}

/// Partitioning is exact: the workers' records, one worker after the other,
/// are the records of the whole file, each once and in order; and every worker
/// finds only well-formed lines exactly when the whole file is well formed.
pub proof fn lemma_partition(data: Seq<u8>, n: int)
    requires
        1 <= n,
    ensures
        all_worker_records(data, n).flatten() == records_in(data, 0, data.len() as int),
        (forall|i: int| 0 <= i < n ==> lines_ok(
            data,
            part_start(data.len() as int, n, i),
            part_end(data.len() as int, n, i),
        )) <==> lines_ok(data, 0, data.len() as int),
{
    lemma_prefix(data, n, n);
    assert(all_worker_records(data, n).subrange(0, n) =~= all_worker_records(data, n));
}

/// Any number of workers gives the store that one worker gives: merging the
/// workers' stores in order yields the store of all records of the file.
pub proof fn lemma_workers_agree(data: Seq<u8>, n: int)
    requires
        1 <= n,
    ensures
        merge_all_maps(
            Seq::new(n as nat, |i: int| aggregate(worker_records(data, n, i))),
        ) == aggregate(records_in(data, 0, data.len() as int)),
        merge_all_maps(
            Seq::new(n as nat, |i: int| aggregate(worker_records(data, n, i))),
        ) == merge_all_maps(
            Seq::new(1, |i: int| aggregate(worker_records(data, 1, i))),
        ),
{
    let len = data.len() as int;
    let parts = all_worker_records(data, n);
    lemma_partition(data, n);
    lemma_records_bounds(data, 0, len);
    lemma_aggregate_parts(parts);
    assert(parts.map_values(|p: Seq<(Seq<u8>, int)>| aggregate(p)) =~= Seq::new(
        n as nat,
        |i: int| aggregate(worker_records(data, n, i)),
    ));
    let one = all_worker_records(data, 1);
    lemma_partition(data, 1);
    lemma_aggregate_parts(one);
    assert(one.map_values(|p: Seq<(Seq<u8>, int)>| aggregate(p)) =~= Seq::new(
        1,
        |i: int| aggregate(worker_records(data, 1, i)),
    ));
}

/// Reads the whole file as `workers` workers would, one after the other, and
/// merges what each found.
pub fn aggregate_file(file_mem: &[u8], workers: usize) -> (r: Result<FinalInfo, ScanError>)
    requires
        workers >= 1,
        file_mem@.len() <= MAX_COUNT,
    ensures
        lines_ok(file_mem@, 0, file_mem@.len() as int) <==> r is Ok,
        r matches Ok(info) ==> {
            &&& info.wf()
            &&& info.view() == aggregate(records_in(file_mem@, 0, file_mem@.len() as int))
        },
        r matches Err(e) ==> {
            &&& is_line_start(file_mem@, e.offset as int)
            &&& parse_line(file_mem@, e.offset as int) == Err::<(Seq<u8>, int), FormatError>(
                e.kind,
            )
            &&& lines_ok(file_mem@, 0, e.offset as int)
        },
{
    let ghost data = file_mem@;
    let ghost len = data.len() as int;
    let ghost n = workers as int;
    let mut acc = FinalInfo::new();
    let mut i: usize = 0;
    proof {
        assert(records_in(data, 0, 0) =~= Seq::<(Seq<u8>, int)>::empty());
        assert(aggregate(records_in(data, 0, 0)) =~= acc.view());
    }
    while i < workers
        invariant
            data == file_mem@,
            len == data.len(),
            len <= MAX_COUNT,
            n == workers,
            n >= 1,
            0 <= i <= n,
            acc.wf(),
            acc.total == records_in(data, 0, if i == 0 { 0 } else { part_end(len, n, i - 1) }).len(),
            acc.view() == aggregate(records_in(data, 0, if i == 0 { 0 } else { part_end(len, n, i - 1) })),
            lines_ok(data, 0, if i == 0 { 0 } else { part_end(len, n, i - 1) }),
        decreases n - i,
    {
        let (start, end) = worker_range(file_mem.len(), workers, i);
        let ghost b = if i == 0 { 0 } else { part_end(len, n, i - 1) };
        proof {
            lemma_bounds(len, n, i as int);
            if i > 0 {
                lemma_bounds(len, n, i - 1);
            } else {
                assert(0 * (len / n) == 0);
            }
            assert(start == b);
        }
        let part = read_file(start, end - start, file_mem);
        match part {
            Err(e) => {
                proof {
                    assert forall|q: int| 0 <= q < e.offset && #[trigger] is_line_start(data, q) implies parse_line(data, q) is Ok by {
                        if q >= b {
                            assert(lines_ok(data, start as int, e.offset as int));
                        }
                    }
                }
                return Err(e);
            },
            Ok(info) => {
                proof {
                    lemma_records_concat(data, 0, b, end as int);
                    lemma_records_bounds(data, 0, end as int);
                    lemma_aggregate_split(records_in(data, 0, b), records_in(data, b, end as int));
                    assert forall|q: int| 0 <= q < end && #[trigger] is_line_start(data, q) implies parse_line(data, q) is Ok by {
                        if q >= b {
                            assert(lines_ok(data, start as int, end as int));
                        }
                    }
                }
                acc.merge(&info);
            },
        }
        i = i + 1;
    }
    Ok(acc)
}

} // verus!
