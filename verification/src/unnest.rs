//! The table `unnest(array)`: one row for each element of an array.

use vstd::arithmetic::power2::{lemma2_to64_rest, lemma_pow2_adds};
use vstd::prelude::*;

use crate::array;
use crate::error::LimboError;
use crate::floats::{self, FloatModel, FloatStyle, FloatText};
use crate::value::{self, Value, ValueModel};

verus! {

/// The column that holds the element.
pub const COL_VALUE: usize = 0;

/// The hidden column that takes the array.
pub const COL_ARR: usize = 1;

/// The bits of the float one.
pub const COST_OF_ONE: u64 = 0x3ff0_0000_0000_0000;

/// The bits of the largest finite float.
pub const LARGEST_COST: u64 = 0x7fef_ffff_ffff_ffff;

/// How a constraint relates a column to a value.
#[derive(Debug, Clone, Copy, PartialEq, Eq, Structural)]
pub enum ConstraintOp {
    Eq,
    Lt,
    Le,
    Gt,
    Ge,
    Match,
    Like,
    Glob,
    Regexp,
    Ne,
    IsNot,
    IsNotNull,
    IsNull,
    Is,
    In,
}

/// A constraint that a query puts on the table.
#[derive(Debug, Clone, Copy)]
pub struct ConstraintInfo {
    /// The column that it speaks of.
    pub column_index: u32,
    pub op: ConstraintOp,
    /// Whether the value of its other side is known when the table is read.
    pub usable: bool,
}

/// A column that a query orders its rows by.
#[derive(Debug, Clone, Copy)]
pub struct OrderByInfo {
    pub column_index: u32,
    pub desc: bool,
}

/// What the table makes of a constraint.
#[derive(Debug, Clone, Copy, PartialEq, Eq, Structural)]
pub struct ConstraintUsage {
    /// Which argument of the cursor's filter the value becomes, counted from
    /// one.
    pub argv_index: Option<u32>,
    /// Whether the query need not test the constraint any more.
    pub omit: bool,
}

/// How the table is read under given constraints.
#[derive(Debug)]
pub struct IndexInfo {
    pub idx_num: i32,
    pub idx_str: Option<String>,
    pub order_by_consumed: bool,
    /// The bits of the cost, which is a float.
    pub estimated_cost: u64,
    pub estimated_rows: u32,
    pub constraint_usages: Vec<ConstraintUsage>,
}

/// Why the table cannot be read under given constraints.
#[derive(Debug, Clone, Copy, PartialEq, Eq, Structural)]
pub enum ResultCode {
    ConstraintViolation,
}

/// Whether a constraint gives the array.
pub open spec fn gives_array(c: ConstraintInfo) -> bool {
    c.op == ConstraintOp::Eq && c.column_index == COL_ARR
}

/// The last constraint that gives the array and is usable.
pub open spec fn array_given_at(s: Seq<ConstraintInfo>) -> Option<int>
    decreases s.len(),
{
    if s.len() == 0 {
        None
    } else if gives_array(s.last()) && s.last().usable {
        Some(s.len() - 1)
    } else {
        array_given_at(s.drop_last())
    }
}

/// Whether some constraint gives the array, but none that is usable does.
pub open spec fn array_unusable(s: Seq<ConstraintInfo>) -> bool {
    &&& exists|i: int| 0 <= i < s.len() && gives_array(#[trigger] s[i])
    &&& array_given_at(s) is None
}

/// What is made of `n` constraints, of which the one at `at` becomes the first
/// argument.
pub open spec fn usages(n: nat, at: Option<int>) -> Seq<ConstraintUsage> {
    Seq::new(
        n,
        |i: int|
            if at == Some(i) {
                ConstraintUsage { argv_index: Some(1), omit: true }
            } else {
                ConstraintUsage { argv_index: None, omit: false }
            },
    )
}

/// The table `unnest(array)`.
#[derive(Debug)]
pub struct UnnestVirtualTable;

impl UnnestVirtualTable {
    /// Makes the table.
    pub fn new() -> (r: Self)
        ensures
            r == UnnestVirtualTable,
    {
        Self
    }

    /// The name of the table.
    pub fn name(&self) -> (r: String)
        ensures
            r@ == "unnest"@,
    {
        "unnest".to_owned()
    }

    /// Opens a cursor on the table, which is before the first of no rows.
    pub fn open(&self) -> (r: UnnestCursor)
        ensures
            r@ == (CursorModel { rowid: -1, values: Seq::empty() }),
    {
        UnnestCursor::empty()
    }

    /// Plans how the table is read under given constraints. The array must be
    /// known when the table is read: where it is given but not known yet, the
    /// plan is refused, so that another order of the tables is tried. Where it
    /// is not given at all the table can be read, at the largest cost.
    pub fn best_index(&self, constraints: &[ConstraintInfo], _order_by: &[OrderByInfo]) -> (r:
        Result<IndexInfo, ResultCode>)
        ensures
            match r {
                Err(e) => array_unusable(constraints@) && e == ResultCode::ConstraintViolation,
                Ok(info) => {
                    &&& !array_unusable(constraints@)
                    &&& info.idx_num == -1
                    &&& info.idx_str is None
                    &&& !info.order_by_consumed
                    &&& info.estimated_cost == if array_given_at(constraints@) is Some {
                        COST_OF_ONE
                    } else {
                        LARGEST_COST
                    }
                    &&& info.estimated_rows == 25
                    &&& info.constraint_usages@ == usages(
                        constraints@.len(),
                        array_given_at(constraints@),
                    )
                },
            },
    {
        let ghost s = constraints@;
        let mut plan: Vec<ConstraintUsage> = Vec::new();
        let mut arr_idx: Option<usize> = None;
        let mut has_arr_eq_constraint = false;
        assert(s.take(0) =~= Seq::<ConstraintInfo>::empty());
        for i in 0..constraints.len()
            invariant
                s == constraints@,
                plan@ =~= usages(i as nat, None),
                has_arr_eq_constraint == exists|j: int| 0 <= j < i && gives_array(#[trigger] s[j]),
                array_given_at(s.take(i as int)) == match arr_idx {
                    Some(k) => Some(k as int),
                    None => None,
                },
                arr_idx matches Some(k) ==> k < i,
        {
            assert(s.take(i + 1).drop_last() =~= s.take(i as int));
            assert(s.take(i + 1).last() == s[i as int]);
            plan.push(ConstraintUsage { argv_index: None, omit: false });
            let c = &constraints[i];
            if c.op == ConstraintOp::Eq && c.column_index == COL_ARR as u32 {
                has_arr_eq_constraint = true;
                assert(gives_array(s[i as int]));
                if c.usable {
                    arr_idx = Some(i);
                }
            }
        }
        assert(s.take(s.len() as int) =~= s);
        if has_arr_eq_constraint && arr_idx.is_none() {
            return Err(ResultCode::ConstraintViolation);
        }
        let mut cost = LARGEST_COST;
        if let Some(idx) = arr_idx {
            plan.set(idx, ConstraintUsage { argv_index: Some(1), omit: true });
            cost = COST_OF_ONE;
        }
        assert(plan@ =~= usages(s.len(), array_given_at(s)));
        Ok(
            IndexInfo {
                idx_num: -1,
                idx_str: None,
                order_by_consumed: false,
                estimated_cost: cost,
                estimated_rows: 25,
                constraint_usages: plan,
            },
        )
    }

    /// The declaration of the table's columns.
    pub fn sql(&self) -> (r: String)
        ensures
            r@
                == "CREATE TABLE x(\n            value ANY,      -- the unnested element\n            arr ANY HIDDEN  -- input parameter: the array to unnest\n        );"@,
    {
        "CREATE TABLE x(\n            value ANY,      -- the unnested element\n            arr ANY HIDDEN  -- input parameter: the array to unnest\n        );".to_owned()
    }
}

impl Default for UnnestVirtualTable {
    fn default() -> (r: Self)
        ensures
            r == UnnestVirtualTable,
    {
        Self::new()
    }
}

/// What a cursor holds: the number of its row and the elements of the array.
pub ghost struct CursorModel {
    pub rowid: int,
    pub values: Seq<ValueModel>,
}

/// A cursor on the rows of the table.
#[derive(Debug)]
pub struct UnnestCursor {
    rowid: i64,
    values: Vec<Value>,
}

impl View for UnnestCursor {
    type V = CursorModel;

    closed spec fn view(&self) -> CursorModel {
        CursorModel { rowid: self.rowid as int, values: value::models(self.values@) }
    }
}

/// The elements that the rows of the table hold for the arguments of a filter:
/// none where there is no array among them.
pub open spec fn rows_for(args: Seq<Value>, model: FloatModel) -> Seq<ValueModel> {
    if args.len() == 0 {
        Seq::empty()
    } else {
        match array::elements_of(args[0]@, model) {
            Ok(Some(s)) => s,
            _ => Seq::empty(),
        }
    }
}

/// Whether a cursor is on a row.
pub open spec fn has_row(c: CursorModel) -> bool {
    0 <= c.rowid < c.values.len()
}

/// A cursor on the first row for the arguments of a filter.
pub open spec fn after_filter(args: Seq<Value>, model: FloatModel) -> CursorModel {
    CursorModel { rowid: 0, values: rows_for(args, model) }
}

/// A cursor that went to the next row.
pub open spec fn after_next(c: CursorModel) -> CursorModel {
    CursorModel { rowid: c.rowid + 1, values: c.values }
}

/// A cursor that went to the next row so many times.
pub open spec fn after_nexts(c: CursorModel, n: nat) -> CursorModel
    decreases n,
{
    if n == 0 {
        c
    } else {
        after_next(after_nexts(c, (n - 1) as nat))
    }
}

/// The rows of the table are the elements of the array, in their order: after a
/// filter and so many steps the cursor is on the row of that number, as long as
/// there are elements, and on none behind the last.
pub proof fn law_rows_are_elements(args: Seq<Value>, n: nat, model: FloatModel)
    ensures
        after_nexts(after_filter(args, model), n).rowid == n,
        after_nexts(after_filter(args, model), n).values == rows_for(args, model),
        has_row(after_nexts(after_filter(args, model), n)) <==> n < rows_for(args, model).len(),
    decreases n,
{
    if n > 0 {
        law_rows_are_elements(args, (n - 1) as nat, model);
    }
}

/// The costs are one and the largest number there is.
pub proof fn law_costs()
    ensures
        floats::float_units(COST_OF_ONE) == floats::unit_scale(),
        floats::is_finite_bits(LARGEST_COST),
        forall|bits: u64| #[trigger]
            floats::is_finite_bits(bits) ==> floats::float_units(bits) <= floats::float_units(
                LARGEST_COST,
            ),
{
    lemma2_to64_rest();
    lemma_pow2_adds(52, 1022);
    assert forall|bits: u64| #[trigger] floats::is_finite_bits(bits) implies floats::float_units(
        bits,
    ) <= floats::float_units(LARGEST_COST) by {
        let m = floats::magnitude(bits);
        let largest = floats::magnitude(LARGEST_COST);
        floats::lemma_magnitude_units_increase(m, largest + 1);
        if m < largest {
            floats::lemma_magnitude_units_increase(m, largest);
        }
    }
}

impl UnnestCursor {
    #[verifier::type_invariant]
    closed spec fn counts_up(&self) -> bool {
        self.rowid >= -1
    }

    /// A cursor before the first of no rows.
    pub fn empty() -> (r: Self)
        ensures
            r@ == (CursorModel { rowid: -1, values: Seq::empty() }),
    {
        let values: Vec<Value> = Vec::new();
        assert(value::models(values@) =~= Seq::<ValueModel>::empty());
        Self { rowid: -1, values }
    }

    /// Goes to the first row for an array, and says whether there is one.
    pub fn filter<R: Fn(&str) -> Option<u64>, S: Fn(u64, FloatStyle) -> String>(
        &mut self,
        args: &[Value],
        _idx_str: Option<String>,
        _idx_num: i32,
        floats: &FloatText<R, S>,
    ) -> (r: Result<bool, LimboError>)
        requires
            args@.len() > 0 ==> array::is_defined(args@[0]@, floats@),
        ensures
            final(self)@ == after_filter(args@, floats@),
            r == Ok::<bool, LimboError>(has_row(final(self)@)),
    {
        let mut values: Vec<Value> = Vec::new();
        assert(value::models(values@) =~= Seq::<ValueModel>::empty());
        if args.len() > 0 {
            if let Ok(Some(elements)) = array::array_values_from_any(&args[0], floats) {
                values = elements;
            }
        }
        self.rowid = -1;
        self.values = values;
        self.next()
    }

    /// Goes to the next row, and says whether there is one.
    pub fn next(&mut self) -> (r: Result<bool, LimboError>)
        requires
            old(self)@.rowid < i64::MAX,
        ensures
            final(self)@ == after_next(old(self)@),
            r == Ok::<bool, LimboError>(has_row(final(self)@)),
    {
        proof {
            use_type_invariant(&*self);
        }
        self.rowid = self.rowid + 1;
        Ok((self.rowid as u64) < self.values.len() as u64)
    }

    /// The number of the row.
    pub fn rowid(&self) -> (r: i64)
        ensures
            r == self@.rowid,
    {
        self.rowid
    }

    /// What a column holds in the row: the element, and NULL in every other.
    pub fn column(&self, idx: usize) -> (r: Result<Value, LimboError>)
        requires
            idx == COL_VALUE ==> has_row(self@),
        ensures
            r matches Ok(v) && v@ == if idx == COL_VALUE {
                self@.values[self@.rowid]
            } else {
                ValueModel::Null
            },
    {
        if idx == COL_VALUE {
            assert(self.values.len() <= usize::MAX);
            assert(self@.values[self@.rowid] == self.values@[self.rowid as int]@);
            Ok(self.values[self.rowid as usize].clone())
        } else {
            Ok(Value::Null)
        }
    }
}

} // verus!
