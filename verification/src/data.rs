//! The unit of storage: a `Sequence` record whose two tabular payloads are
//! held in materialized form (named columns of 64-bit cells), so that a
//! record is plain data and its byte encoding is deterministic.

use vstd::prelude::*;

verus! {

/// Mathematical model of one named column: a name (raw bytes) and the
/// column's cells, each a 64-bit pattern.
#[verifier::ext_equal]
pub ghost struct ColModel {
    pub name: Seq<u8>,
    pub values: Seq<u64>,
}

/// Mathematical model of a materialized table: a sequence of columns.
#[verifier::ext_equal]
pub ghost struct FrameModel {
    pub columns: Seq<ColModel>,
}

/// Mathematical model of one stored record.
#[verifier::ext_equal]
pub ghost struct SequenceModel {
    pub index: i32,
    pub sequence: FrameModel,
    pub anomaly: i32,
    pub saliency: FrameModel,
    pub failure: i32,
    pub unseen: bool,
}

impl ColModel {
    /// A column is well-formed when its name and cell count each fit in a
    /// 64-bit length prefix.
    pub open spec fn wf(self) -> bool {
        &&& self.name.len() < 0x1_0000_0000_0000_0000
        &&& self.values.len() < 0x1_0000_0000_0000_0000
    }
}

impl FrameModel {
    /// Number of rows: the length shared by every column.
    pub open spec fn nrows(self) -> nat {
        if self.columns.len() == 0 {
            0
        } else {
            self.columns[0].values.len()
        }
    }

    /// A frame is well-formed when it is rectangular (every column has the
    /// same number of cells) and all counts fit in a 64-bit length prefix.
    pub open spec fn wf(self) -> bool {
        &&& self.columns.len() < 0x1_0000_0000_0000_0000
        &&& forall|i: int|
            0 <= i < self.columns.len() ==> (#[trigger] self.columns[i]).wf()
                && self.columns[i].values.len() == self.nrows()
    }
}

impl SequenceModel {
    /// A record is well-formed when both payload frames are well-formed and
    /// parallel in shape: same column count and same row count.
    pub open spec fn wf(self) -> bool {
        &&& self.sequence.wf()
        &&& self.saliency.wf()
        &&& self.saliency.columns.len() == self.sequence.columns.len()
        &&& self.saliency.nrows() == self.sequence.nrows()
    }
}

/// One named column of a materialized table. Cell values are carried as raw
/// 64-bit patterns; what they denote (e.g. a floating-point reading) is the
/// producer's business, the buffer only stores and returns them.
#[derive(Clone, Debug, PartialEq, Eq)]
pub struct Column {
    pub name: Vec<u8>,
    pub values: Vec<u64>,
}

impl View for Column {
    type V = ColModel;

    open spec fn view(&self) -> ColModel {
        ColModel { name: self.name@, values: self.values@ }
    }
}

/// A materialized table: the concrete snapshot of a lazy tabular series,
/// taken at the producer boundary before a record enters the buffer.
#[derive(Clone, Debug, PartialEq, Eq)]
pub struct Frame {
    pub columns: Vec<Column>,
}

impl View for Frame {
    type V = FrameModel;

    open spec fn view(&self) -> FrameModel {
        FrameModel { columns: self.columns@.map_values(|c: Column| c@) }
    }
}

/// The unit of storage: an indexed record with two parallel tabular
/// payloads and three caller-managed annotations. Immutable once pushed.
#[derive(Clone, Debug, PartialEq, Eq)]
pub struct Sequence {
    pub index: i32,
    pub sequence: Frame,
    pub anomaly: i32,
    pub saliency: Frame,
    pub failure: i32,
    pub unseen: bool,
}

impl View for Sequence {
    type V = SequenceModel;

    open spec fn view(&self) -> SequenceModel {
        SequenceModel {
            index: self.index,
            sequence: self.sequence@,
            anomaly: self.anomaly,
            saliency: self.saliency@,
            failure: self.failure,
            unseen: self.unseen,
        }
    }
}

impl Frame {
    /// Row count of a well-formed frame: the cell count of its first column.
    pub fn nrows(&self) -> (n: usize)
        ensures
            n == self@.nrows(),
    {
        if self.columns.len() == 0 {
            0
        } else {
            self.columns[0].values.len()
        }
    }

    /// Decides whether the frame is rectangular, i.e. well-formed.
    pub fn is_wf(&self) -> (r: bool)
        ensures
            r == self@.wf(),
    {
        let rows = self.nrows();
        let mut i: usize = 0;
        while i < self.columns.len()
            invariant
                0 <= i <= self.columns@.len(),
                rows == self@.nrows(),
                self@.columns.len() == self.columns@.len(),
                forall|j: int| 0 <= j < self.columns@.len() ==> self@.columns[j] == self.columns@[j]@,
                forall|j: int|
                    0 <= j < i ==> (#[trigger] self@.columns[j]).wf()
                        && self@.columns[j].values.len() == self@.nrows(),
            decreases self.columns@.len() - i,
        {
            if self.columns[i].values.len() != rows {
                assert(self@.columns[i as int].values.len() != self@.nrows());
                return false;
            }
            proof {
                lemma_col_view_wf(&self.columns[i as int]);
            }
            i = i + 1;
        }
        true
    }
}

/// The view of any concrete column is well-formed: its lengths are vector
/// lengths and hence fit in a 64-bit length prefix.
pub proof fn lemma_col_view_wf(c: &Column)
    ensures
        c@.wf(),
{
    assert(c.name@.len() == vstd::std_specs::vec::spec_vec_len(&c.name));
    assert(c.values@.len() == vstd::std_specs::vec::spec_vec_len(&c.values));
}

/// The view of any concrete frame has a well-formed column count.
pub proof fn lemma_frame_view_len(f: &Frame)
    ensures
        f@.columns.len() == f.columns@.len() < 0x1_0000_0000_0000_0000,
        forall|j: int| 0 <= j < f.columns@.len() ==> f@.columns[j] == f.columns@[j]@,
{
    assert(f.columns@.len() == vstd::std_specs::vec::spec_vec_len(&f.columns));
}

impl Sequence {
    /// Decides whether the record is well-formed: both frames rectangular
    /// and parallel in shape. Only well-formed records can be encoded.
    pub fn is_wf(&self) -> (r: bool)
        ensures
            r == self@.wf(),
    {
        self.sequence.is_wf() && self.saliency.is_wf()
            && self.saliency.columns.len() == self.sequence.columns.len()
            && self.saliency.nrows() == self.sequence.nrows()
    }
}

} // verus!
