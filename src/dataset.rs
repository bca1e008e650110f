use vstd::prelude::*;
use crate::error::ClassifierError;

verus! {

/// The rows of a feature matrix, each seen as a sequence of values.
pub open spec fn rows_of(v: Seq<Vec<i64>>) -> Seq<Seq<i64>> {
    v.map_values(|r: Vec<i64>| r@)
}

/// Every row has width `w`.
pub open spec fn all_width(rows: Seq<Seq<i64>>, w: nat) -> bool {
    forall|i: int| 0 <= i < rows.len() ==> #[trigger] rows[i].len() == w
}

/// Every label is 0 or 1.
pub open spec fn labels_binary(l: Seq<u8>) -> bool {
    forall|i: int| 0 <= i < l.len() ==> (#[trigger] l[i] == 0 || l[i] == 1)
}

/// The features have a common width of at least one.
pub open spec fn rectangular(f: Seq<Seq<i64>>) -> bool {
    f.len() > 0 && f[0].len() >= 1 && all_width(f, f[0].len())
}

/// What `Dataset::new` refuses, checked in this order; `None` when it accepts.
pub open spec fn new_outcome(f: Seq<Seq<i64>>, l: Seq<u8>) -> Option<ClassifierError> {
    if f.len() != l.len() {
        Some(ClassifierError::ShapeMismatch)
    } else if f.len() == 0 {
        Some(ClassifierError::EmptyDataset)
    } else if !rectangular(f) {
        Some(ClassifierError::ShapeMismatch)
    } else if !labels_binary(l) {
        Some(ClassifierError::InvalidLabelDomain)
    } else {
        None
    }
}

/// A non-empty, rectangular feature matrix of width at least one, with one binary label per row.
pub open spec fn valid_data(f: Seq<Seq<i64>>, l: Seq<u8>) -> bool {
    f.len() == l.len() && rectangular(f) && labels_binary(l)
}

/// Number of rows that a ratio `num / den` gives to the training part of `n` rows.
pub open spec fn train_count(num: nat, den: nat, n: nat) -> nat
    recommends
        den > 0,
{
    (num * n) / den
}

/// Whether `split_with_ratio` refuses the ratio `num / den` on `n` rows.
pub open spec fn ratio_refused(num: nat, den: nat, n: nat) -> bool {
    den == 0 || num == 0 || num >= den || train_count(num, den, n) == 0 || train_count(num, den, n)
        == n
}

/// Feature rows paired with binary labels; immutable once made.
pub struct Dataset {
    features: Vec<Vec<i64>>,
    labels: Vec<u8>,
}

/// Copies one row of features.
fn copy_row(r: &Vec<i64>) -> (c: Vec<i64>)
    ensures
        c@ == r@,
{
    let mut c: Vec<i64> = Vec::new();
    let mut i: usize = 0;
    while i < r.len()
        invariant
            i <= r.len(),
            c@ == r@.take(i as int),
        decreases r.len() - i,
    {
        c.push(r[i]);
        i = i + 1;
        assert(c@ =~= r@.take(i as int));
    }
    assert(r@.take(r.len() as int) =~= r@);
    c
}

impl Dataset {
    /// The feature rows.
    pub closed spec fn rows_view(&self) -> Seq<Seq<i64>> {
        rows_of(self.features@)
    }

    /// The labels, index-aligned with the rows.
    pub closed spec fn labels_view(&self) -> Seq<u8> {
        self.labels@
    }

    pub open spec fn wf(&self) -> bool {
        valid_data(self.rows_view(), self.labels_view())
    }

    pub open spec fn width_spec(&self) -> nat {
        self.rows_view()[0].len()
    }

    /// Pairs `features` with `labels`, refusing mismatched lengths, an empty set,
    /// ragged or zero-width rows, and labels outside {0, 1}.
    pub fn new(features: Vec<Vec<i64>>, labels: Vec<u8>) -> (r: Result<Dataset, ClassifierError>)
        ensures
            new_outcome(rows_of(features@), labels@) is None <==> r is Ok,
            r matches Err(e) ==> new_outcome(rows_of(features@), labels@) == Some(e),
            r matches Ok(d) ==> d.wf() && d.rows_view() == rows_of(features@) && d.labels_view()
                == labels@,
    {
        let ghost f = rows_of(features@);
        if features.len() != labels.len() {
            return Err(ClassifierError::ShapeMismatch);
        }
        if features.len() == 0 {
            return Err(ClassifierError::EmptyDataset);
        }
        let w = features[0].len();
        if w == 0 {
            return Err(ClassifierError::ShapeMismatch);
        }
        let mut i: usize = 0;
        while i < features.len()
            invariant
                i <= features.len(),
                f == rows_of(features@),
                w == f[0].len(),
                forall|j: int| 0 <= j < i ==> #[trigger] f[j].len() == w,
            decreases features.len() - i,
        {
            if features[i].len() != w {
                assert(f[i as int] == features@[i as int]@);
                assert(!all_width(f, f[0].len()));
                return Err(ClassifierError::ShapeMismatch);
            }
            i = i + 1;
        }
        assert(all_width(f, f[0].len()));
        let mut k: usize = 0;
        while k < labels.len()
            invariant
                k <= labels.len(),
                f == rows_of(features@),
                features@.len() == labels@.len(),
                rectangular(f),
                forall|j: int| 0 <= j < k ==> (#[trigger] labels@[j] == 0 || labels@[j] == 1),
            decreases labels.len() - k,
        {
            if labels[k] != 0 && labels[k] != 1 {
                assert(!labels_binary(labels@));
                return Err(ClassifierError::InvalidLabelDomain);
            }
            k = k + 1;
        }
        Ok(Dataset { features, labels })
    }

    /// Number of rows.
    pub fn rows(&self) -> (n: usize)
        ensures
            n == self.rows_view().len(),
    {
        self.features.len()
    }

    /// Number of features in each row.
    pub fn width(&self) -> (w: usize)
        requires
            self.wf(),
        ensures
            w == self.width_spec(),
            w >= 1,
    {
        self.features[0].len()
    }

    /// The feature rows.
    pub fn features(&self) -> (f: &Vec<Vec<i64>>)
        ensures
            rows_of(f@) == self.rows_view(),
    {
        &self.features
    }

    /// The labels.
    pub fn labels(&self) -> (l: &Vec<u8>)
        ensures
            l@ == self.labels_view(),
    {
        &self.labels
    }

    /// Gives up the feature rows and labels.
    pub fn into_parts(self) -> (r: (Vec<Vec<i64>>, Vec<u8>))
        ensures
            rows_of(r.0@) == self.rows_view(),
            r.1@ == self.labels_view(),
    {
        (self.features, self.labels)
    }

    /// Copies the rows in `lo..hi`, keeping their order and their labels.
    fn slice_rows(&self, lo: usize, hi: usize) -> (d: Dataset)
        requires
            self.wf(),
            lo < hi <= self.rows_view().len(),
        ensures
            d.wf(),
            d.rows_view() == self.rows_view().subrange(lo as int, hi as int),
            d.labels_view() == self.labels_view().subrange(lo as int, hi as int),
    {
        let mut features: Vec<Vec<i64>> = Vec::new();
        let mut labels: Vec<u8> = Vec::new();
        let mut i: usize = lo;
        while i < hi
            invariant
                lo <= i <= hi,
                hi <= self.features.len(),
                self.features.len() == self.labels.len(),
                features@.len() == i - lo,
                forall|j: int| 0 <= j < i - lo ==> (#[trigger] features@[j])@ == self.features@[lo + j]@,
                labels@ == self.labels@.subrange(lo as int, i as int),
            decreases hi - i,
        {
            let r = copy_row(&self.features[i]);
            features.push(r);
            labels.push(self.labels[i]);
            i = i + 1;
            assert(labels@ =~= self.labels@.subrange(lo as int, i as int));
        }
        assert(rows_of(features@) =~= rows_of(self.features@).subrange(lo as int, hi as int));
        let d = Dataset { features, labels };
        let ghost all = self.rows_view();
        let ghost sub = d.rows_view();
        assert(sub[0] == all[lo as int]);
        assert forall|j: int| 0 <= j < sub.len() implies #[trigger] sub[j].len() == sub[0].len() by {
            assert(sub[j] == all[lo + j]);
        }
        assert forall|j: int| 0 <= j < d.labels@.len() implies (#[trigger] d.labels@[j] == 0
            || d.labels@[j] == 1) by {
            assert(d.labels@[j] == self.labels@[lo + j]);
        }
        d
    }

    /// Splits into a training part (the first `floor(num * n / den)` rows) and a
    /// test part (the rest), in input order, without shuffling. Refuses a
    /// ratio outside (0, 1) or one that leaves either part empty.
    pub fn split_with_ratio(&self, num: u64, den: u64) -> (r: Result<(Dataset, Dataset), ClassifierError>)
        requires
            self.wf(),
        ensures
            r is Err <==> ratio_refused(num as nat, den as nat, self.rows_view().len()),
            r matches Err(e) ==> e == ClassifierError::InvalidRatio,
            r matches Ok((train, test)) ==> {
                let k = train_count(num as nat, den as nat, self.rows_view().len()) as int;
                &&& train.wf() && test.wf()
                &&& train.rows_view() == self.rows_view().take(k)
                &&& train.labels_view() == self.labels_view().take(k)
                &&& test.rows_view() == self.rows_view().skip(k)
                &&& test.labels_view() == self.labels_view().skip(k)
            },
    {
        if den == 0 || num == 0 || num >= den {
            return Err(ClassifierError::InvalidRatio);
        }
        let n = self.features.len();
        proof {
            assert((num as nat) * (n as nat) <= (den as nat) * (n as nat)) by (nonlinear_arith)
                requires num < den;
            assert((num as nat) * (n as nat) / (den as nat) <= n) by (nonlinear_arith)
                requires (num as nat) * (n as nat) <= (den as nat) * (n as nat), den > 0;
            assert((num as nat) * (n as nat) < 0x1_0000_0000_0000_0000_0000_0000_0000_0000) by (nonlinear_arith)
                requires num <= 0xffff_ffff_ffff_ffff, n <= 0xffff_ffff_ffff_ffff;
        }
        let k128: u128 = (num as u128) * (n as u128) / (den as u128);
        if k128 == 0 || k128 == n as u128 {
            return Err(ClassifierError::InvalidRatio);
        }
        let k = k128 as usize;
        let train = self.slice_rows(0, k);
        let test = self.slice_rows(k, n);
        assert(self.rows_view().subrange(0, k as int) =~= self.rows_view().take(k as int));
        assert(self.labels_view().subrange(0, k as int) =~= self.labels_view().take(k as int));
        assert(self.rows_view().subrange(k as int, n as int) =~= self.rows_view().skip(k as int));
        assert(self.labels_view().subrange(k as int, n as int) =~= self.labels_view().skip(k as int));
        Ok((train, test))
    }
}

/// Splitting never loses or repeats a row: the training rows followed by the
/// test rows are the dataset's rows in their input order, and the training
/// part has exactly `floor(num * n / den)` rows.
pub proof fn lemma_split_partitions(ds: Dataset, num: u64, den: u64, train: Dataset, test: Dataset)
    requires
        ds.wf(),
        !ratio_refused(num as nat, den as nat, ds.rows_view().len()),
        train.rows_view() == ds.rows_view().take(
            train_count(num as nat, den as nat, ds.rows_view().len()) as int,
        ),
        train.labels_view() == ds.labels_view().take(
            train_count(num as nat, den as nat, ds.rows_view().len()) as int,
        ),
        test.rows_view() == ds.rows_view().skip(
            train_count(num as nat, den as nat, ds.rows_view().len()) as int,
        ),
        test.labels_view() == ds.labels_view().skip(
            train_count(num as nat, den as nat, ds.rows_view().len()) as int,
        ),
    ensures
        train.rows_view().len() == train_count(num as nat, den as nat, ds.rows_view().len()),
        test.rows_view().len() == ds.rows_view().len() - train.rows_view().len(),
        train.rows_view() + test.rows_view() == ds.rows_view(),
        train.labels_view() + test.labels_view() == ds.labels_view(),
{
    let n = ds.rows_view().len();
    let k = train_count(num as nat, den as nat, n);
    assert((num as nat) * n <= (den as nat) * n) by (nonlinear_arith)
        requires num < den;
    assert((num as nat) * n / (den as nat) <= n) by (nonlinear_arith)
        requires (num as nat) * n <= (den as nat) * n, den > 0;
    assert(train.rows_view() + test.rows_view() =~= ds.rows_view());
    assert(train.labels_view() + test.labels_view() =~= ds.labels_view());
}

} // verus!
