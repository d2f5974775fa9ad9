//! Comparing results with what they should be.
use vstd::prelude::*;

verus! {

/// The first way in which a vector differs from what it should be.
#[derive(PartialEq, Eq, Structural, Clone, Copy, Debug)]
pub enum Mismatch {
    /// The number of items differs.
    Length { len: usize, expected: usize },
    /// The items at `index` differ.
    Item { index: usize, value: u64, wanted: u64 },
}

/// `result` says whether `a` is equal to `expected`, and if not, how it differs first.
pub open spec fn is_comparison(
    a: Seq<u64>,
    expected: Seq<u64>,
    result: Result<(), Mismatch>,
) -> bool {
    match result {
        Ok(_) => a == expected,
        Err(Mismatch::Length { len, expected: other }) => {
            &&& a.len() != expected.len()
            &&& len == a.len()
            &&& other == expected.len()
        },
        Err(Mismatch::Item { index, value, wanted: other }) => {
            &&& a.len() == expected.len()
            &&& index < a.len()
            &&& value == a[index as int]
            &&& other == expected[index as int]
            &&& value != other
            &&& forall|j: int| 0 <= j < index ==> #[trigger] a[j] == expected[j]
        },
    }
}

/// Compares two vectors.
pub fn check_eq(a: &Vec<u64>, b: &Vec<u64>) -> (result: Result<(), Mismatch>)
    ensures
        is_comparison(a@, b@, result),
{
    if a.len() != b.len() {
        return Err(Mismatch::Length { len: a.len(), expected: b.len() });
    }
    let mut idx: usize = 0;
    while idx < a.len()
        invariant
            idx <= a@.len(),
            a@.len() == b@.len(),
            forall|j: int| 0 <= j < idx ==> #[trigger] a@[j] == b@[j],
        decreases a@.len() - idx,
    {
        if a[idx] != b[idx] {
            return Err(Mismatch::Item { index: idx, value: a[idx], wanted: b[idx] });
        }
        idx = idx + 1;
    }
    assert(a@ =~= b@);
    Ok(())
}

/// The data of [`make_data`] when each item has been increased by one.
pub open spec fn increased(len: nat) -> Seq<u64> {
    Seq::new(len, |i: int| (i + 1) as u64)
}

/// Checks that each item is greater by one than its index.
pub fn check_data(data: &Vec<u64>) -> (result: Result<(), Mismatch>)
    ensures
        is_comparison(data@, increased(data@.len()), result),
{
    let mut num: usize = 0;
    while num < data.len()
        invariant
            num <= data@.len(),
            forall|j: int| 0 <= j < num ==> #[trigger] data@[j] == increased(data@.len())[j],
        decreases data@.len() - num,
    {
        let expected: u64 = num as u64 + 1;
        if data[num] != expected {
            return Err(Mismatch::Item { index: num, value: data[num], wanted: expected });
        }
        num = num + 1;
    }
    assert(data@ =~= increased(data@.len()));
    Ok(())
}

/// A comparison says that two vectors are equal exactly if they are. It says that their lengths
/// differ, and what they are, exactly if they do. Else it says what the first difference is.
pub proof fn law_comparisons(a: &Vec<u64>, b: &Vec<u64>, result: Result<(), Mismatch>)
    requires
        call_ensures(check_eq, (a, b), result),
    ensures
        result is Ok <==> a@ == b@,
        a@.len() != b@.len() ==> result == Err::<(), Mismatch>(
            Mismatch::Length { len: a@.len() as usize, expected: b@.len() as usize },
        ),
        forall|i: int|
            a@.len() == b@.len() && 0 <= i < a@.len() && #[trigger] a@[i] != b@[i] && (forall|
                j: int,
            |
                0 <= j < i ==> #[trigger] a@[j] == b@[j]) ==> result == Err::<(), Mismatch>(
                Mismatch::Item { index: i as usize, value: a@[i], wanted: b@[i] },
            ),
{
}

/// A check finds nothing exactly if each item is greater by one than its index. Else it finds the
/// first item that is not.
pub proof fn law_checks(data: &Vec<u64>, result: Result<(), Mismatch>)
    requires
        call_ensures(check_data, (data,), result),
    ensures
        result is Ok <==> forall|i: int| 0 <= i < data@.len() ==> #[trigger] data@[i] == i + 1,
        forall|i: int|
            0 <= i < data@.len() && #[trigger] data@[i] != i + 1 && (forall|j: int|
                0 <= j < i ==> #[trigger] data@[j] == j + 1) ==> result == Err::<(), Mismatch>(
                Mismatch::Item { index: i as usize, value: data@[i], wanted: (i + 1) as u64 },
            ),
{
    let expected = increased(data@.len());
    assert(data.len() <= usize::MAX);
    assert(forall|i: int| 0 <= i < expected.len() ==> #[trigger] expected[i] == i + 1);
    if forall|i: int| 0 <= i < data@.len() ==> #[trigger] data@[i] == i + 1 {
        assert(data@ =~= expected);
    }
}

} // verus!
