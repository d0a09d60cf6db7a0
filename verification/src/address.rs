use vstd::prelude::*;

verus! {

/// The largest value of a `u32`, as a 64-bit number.
pub const U32_LIMIT: u64 = 0x1_0000_0000;

/// The position of a cell: a column and a row.
#[derive(Clone, Copy, PartialEq, Eq, Hash, Debug, Structural)]
pub struct CellAddress {
    pub column: u32,
    pub row: u32,
}

impl CellAddress {
    /// Makes the address of the cell in `column` and `row`.
    pub fn new(column: u32, row: u32) -> (address: Self)
        ensures
            address.column == column,
            address.row == row,
    {
        Self { column, row }
    }
}

/// The single 64-bit number that stands for an address: the column in the
/// high half, the row in the low half.
pub open spec fn address_key(address: CellAddress) -> u64 {
    (address.column as int * U32_LIMIT as int + address.row as int) as u64
}

/// The address that a key stands for.
pub open spec fn key_address(key: u64) -> CellAddress {
    CellAddress { column: (key / U32_LIMIT) as u32, row: (key % U32_LIMIT) as u32 }
}

/// Keys and addresses are in one-to-one correspondence.
pub proof fn lemma_address_key_bijective(address: CellAddress, key: u64)
    ensures
        key_address(address_key(address)) == address,
        address_key(key_address(key)) == key,
        0 <= address.column as int * U32_LIMIT as int + address.row as int <= u64::MAX as int,
{
    let k = address.column as int * U32_LIMIT as int + address.row as int;
    assert(0 <= k <= u64::MAX as int) by (nonlinear_arith)
        requires
            0 <= address.column <= u32::MAX,
            0 <= address.row <= u32::MAX,
            k == address.column as int * 0x1_0000_0000 + address.row as int,
    ;
    assert(k / 0x1_0000_0000 == address.column as int && k % 0x1_0000_0000 == address.row as int)
        by (nonlinear_arith)
        requires
            0 <= address.column <= u32::MAX,
            0 <= address.row < 0x1_0000_0000,
            k == address.column as int * 0x1_0000_0000 + address.row as int,
    ;
    assert((key / 0x1_0000_0000) * 0x1_0000_0000 + key % 0x1_0000_0000 == key as int
        && key / 0x1_0000_0000 < 0x1_0000_0000) by (nonlinear_arith)
        requires
            0 <= key <= u64::MAX,
    ;
}

/// Two addresses with the same key are the same address.
pub proof fn lemma_address_key_injective(a: CellAddress, b: CellAddress)
    ensures
        address_key(a) == address_key(b) <==> a == b,
{
    lemma_address_key_bijective(a, 0);
    lemma_address_key_bijective(b, 0);
}

/// Computes the key of an address.
pub fn key_of(address: CellAddress) -> (key: u64)
    ensures
        key == address_key(address),
{
    proof {
        lemma_address_key_bijective(address, 0);
    }
    (address.column as u64) * U32_LIMIT + address.row as u64
}

/// A rectangle of cells, given by its upper left and lower right corners,
/// both included.
#[derive(Clone, Copy, PartialEq, Eq, Hash, Debug, Structural)]
pub struct CellRectangle {
    pub upper_left: CellAddress,
    pub lower_right: CellAddress,
}

impl CellRectangle {
    /// A rectangle is well formed when its upper left corner lies neither
    /// right of nor below its lower right corner.
    pub open spec fn well_formed(self) -> bool {
        &&& self.upper_left.column <= self.lower_right.column
        &&& self.upper_left.row <= self.lower_right.row
    }

    /// Whether `address` lies inside the rectangle.
    pub open spec fn spec_contains(self, address: CellAddress) -> bool {
        &&& self.upper_left.row <= address.row <= self.lower_right.row
        &&& self.upper_left.column <= address.column <= self.lower_right.column
    }

    /// Whether two rectangles share at least one cell.
    pub open spec fn spec_overlaps(self, other: CellRectangle) -> bool {
        &&& self.upper_left.column <= other.lower_right.column
        &&& other.upper_left.column <= self.lower_right.column
        &&& self.upper_left.row <= other.lower_right.row
        &&& other.upper_left.row <= self.lower_right.row
    }

    /// Makes the rectangle with the given corners, or `None` when the corners
    /// do not form a rectangle.
    pub fn new(upper_left: CellAddress, lower_right: CellAddress) -> (rectangle: Option<Self>)
        ensures
            match rectangle {
                Some(r) => r.upper_left == upper_left && r.lower_right == lower_right
                    && r.well_formed(),
                None => !(upper_left.column <= lower_right.column && upper_left.row
                    <= lower_right.row),
            },
    {
        if upper_left.column <= lower_right.column && upper_left.row <= lower_right.row {
            return Some(CellRectangle { upper_left, lower_right });
        }
        None
    }

    /// The rectangle made of the one cell at `address`.
    pub fn from_cell(address: CellAddress) -> (rectangle: Self)
        ensures
            rectangle.upper_left == address,
            rectangle.lower_right == address,
            rectangle.well_formed(),
            forall|a: CellAddress| rectangle.spec_contains(a) <==> a == address,
    {
        CellRectangle { upper_left: address, lower_right: address }
    }

    /// Whether `address` lies inside the rectangle.
    pub fn contains(&self, address: &CellAddress) -> (inside: bool)
        ensures
            inside == self.spec_contains(*address),
    {
        self.upper_left.row <= address.row && address.row <= self.lower_right.row
            && self.upper_left.column <= address.column && address.column
            <= self.lower_right.column
    }
}

/// The half-open range of columns that a rectangle covers, as 64-bit bounds
/// (the upper bound of a rectangle that reaches the last column lies one past
/// the largest `u32`).
pub fn col_range(rectangle: &CellRectangle) -> (range: (u64, u64))
    ensures
        range.0 == rectangle.upper_left.column,
        range.1 == rectangle.lower_right.column + 1,
{
    (rectangle.upper_left.column as u64, rectangle.lower_right.column as u64 + 1)
}

/// The half-open range of rows that a rectangle covers, as 64-bit bounds.
pub fn row_range(rectangle: &CellRectangle) -> (range: (u64, u64))
    ensures
        range.0 == rectangle.upper_left.row,
        range.1 == rectangle.lower_right.row + 1,
{
    (rectangle.upper_left.row as u64, rectangle.lower_right.row as u64 + 1)
}

} // verus!
