//! Decoding a whole sheet: the header row builds the title index, and every
//! data row decodes against the record before it.

use crate::cell::{build_index, header_map, Cell, TitleIndex};
use crate::order::{cells_bounded, empty_model, models, spec_from_row, Order, OrderModel};
use vstd::prelude::*;

verus! {

/// Why a sheet cannot be decoded: decoding fails only before the first data
/// row is read.
#[derive(Debug, PartialEq, Eq)]
pub enum DecodeError {
    /// The sheet has no rows, so no header to index columns by.
    MissingHeader,
}

/// The orders that a sequence of data rows decodes to under a header map:
/// the row at position `i` (1-based) decodes against the record before it,
/// and the very first row against the sentinel record.
pub open spec fn spec_decode_rows(rows: Seq<Vec<Cell>>, m: Map<Seq<char>, int>) -> Seq<OrderModel>
    decreases rows.len(),
{
    if rows.len() == 0 {
        Seq::empty()
    } else {
        let pre = spec_decode_rows(rows.drop_last(), m);
        let last = if pre.len() == 0 {
            empty_model()
        } else {
            pre.last()
        };
        pre.push(spec_from_row(rows.last()@, m, last, rows.len() as int))
    }
}

/// Decodes a sheet: the first row is the header, every later row an order.
/// Fails exactly when the sheet has no rows at all; a missing or mistyped
/// cell never fails, it falls back as the row decoder says.
pub fn decode_orders(rows: &Vec<Vec<Cell>>) -> (r: Result<Vec<Order>, DecodeError>)
    requires
        forall|i: int| 0 <= i < rows@.len() ==> cells_bounded((#[trigger] rows@[i])@),
        rows@.len() <= u32::MAX as int + 1,
    ensures
        match r {
            Ok(orders) => rows@.len() > 0 && models(orders@) == spec_decode_rows(
                rows@.skip(1),
                header_map(rows@[0]@),
            ),
            Err(e) => rows@.len() == 0 && e == DecodeError::MissingHeader,
        },
{
    if rows.len() == 0 {
        return Err(DecodeError::MissingHeader);
    }
    let index: TitleIndex = build_index(&rows[0]);
    let ghost data = rows@.skip(1);
    let mut res: Vec<Order> = Vec::new();
    let mut i: usize = 1;
    while i < rows.len()
        invariant
            1 <= i <= rows@.len(),
            rows@.len() <= u32::MAX as int + 1,
            forall|l: int| 0 <= l < rows@.len() ==> cells_bounded((#[trigger] rows@[l])@),
            data == rows@.skip(1),
            index@ == header_map(rows@[0]@),
            res@.len() == i - 1,
            models(res@) == spec_decode_rows(data.take(i - 1), index@),
        decreases rows@.len() - i,
    {
        proof {
            assert(data.take(i as int).drop_last() =~= data.take(i - 1));
            assert(data.take(i as int).last() == data[i - 1]);
            assert(data[i - 1] == rows@[i as int]);
        }
        let o = if res.len() == 0 {
            let seed = Order::empty();
            Order::from_row(&rows[i], &index, &seed, i as u32)
        } else {
            Order::from_row(&rows[i], &index, &res[res.len() - 1], i as u32)
        };
        proof {
            if res@.len() > 0 {
                assert(models(res@).last() == res@[res@.len() - 1]@);
            }
        }
        let ghost res0 = res@;
        res.push(o);
        proof {
            assert(models(res@) =~= models(res0).push(o@));
            assert(models(res@) =~= spec_decode_rows(data.take(i as int), index@));
        }
        i = i + 1;
    }
    proof {
        assert(data.take(i - 1) =~= data);
    }
    Ok(res)
}

} // verus!
