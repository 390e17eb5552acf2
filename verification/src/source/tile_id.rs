//! Tile addresses: the canonical address of a tile in the quadtree, and the
//! overscaled address that adds a world copy and a rendering zoom.

use crate::style_spec::Scheme;
use crate::util::format::{
    digit_char, lemma_digit_char_injective, lemma_digit_char_no_hyphen,
    lemma_radix_digits_injective, lemma_radix_digits_len, lemma_radix_digits_no_hyphen,
    radix_digits, radix_string, replace_all, str_replace,
};
use crate::util::{lemma_pow2_bound, pow2_u64};
use vstd::arithmetic::div_mod::{lemma_fundamental_div_mod_converse, lemma_multiply_divide_lt};
use vstd::arithmetic::power2::{lemma_pow2_adds, lemma_pow2_unfold, pow2};
use vstd::bits::lemma_u32_shr_is_div;
use vstd::prelude::*;
use vstd::string::*;

verus! {

/// What a canonical tile id stands for: zoom, column and row.
pub struct TileCoord {
    pub z: nat,
    pub x: nat,
    pub y: nat,
}

impl TileCoord {
    /// The zoom is at most 25, and column and row lie inside the `2^z` grid.
    pub open spec fn valid(self) -> bool {
        &&& self.z <= 25
        &&& self.x < pow2(self.z)
        &&& self.y < pow2(self.z)
    }

    /// The child in column `dx` and row `dy` of the four that split this tile.
    pub open spec fn child(self, dx: nat, dy: nat) -> TileCoord {
        TileCoord { z: self.z + 1, x: 2 * self.x + dx, y: 2 * self.y + dy }
    }

    /// The ancestor of this tile `levels` zooms up.
    pub open spec fn ancestor(self, levels: nat) -> TileCoord {
        TileCoord {
            z: (self.z - levels) as nat,
            x: self.x / pow2(levels),
            y: self.y / pow2(levels),
        }
    }
}

/// What an overscaled tile id stands for: the zoom it is rendered at, the
/// world copy it lies in, and the canonical tile whose data it shows.
pub struct OverscaledTile {
    pub overscaled_z: nat,
    pub wrap: int,
    pub canonical: TileCoord,
}

impl OverscaledTile {
    /// The canonical part is valid and the rendering zoom is not below it.
    pub open spec fn valid(self) -> bool {
        &&& self.canonical.valid()
        &&& self.overscaled_z >= self.canonical.z
    }

    /// The same tile in the first world copy.
    pub open spec fn wrapped(self) -> OverscaledTile {
        OverscaledTile { wrap: 0, ..self }
    }

    /// The tile at rendering zoom `target_z` that covers this one: the
    /// canonical part is kept while `target_z` is above its zoom, and
    /// coarsened to `target_z` otherwise.
    pub open spec fn scaled_to(self, target_z: nat) -> OverscaledTile {
        if target_z > self.canonical.z {
            OverscaledTile { overscaled_z: target_z, ..self }
        } else {
            OverscaledTile {
                overscaled_z: target_z,
                wrap: self.wrap,
                canonical: self.canonical.ancestor((self.canonical.z - target_z) as nat),
            }
        }
    }

    /// The tiles one rendering step below this one: the four canonical
    /// children while the source has data below the canonical zoom, else the
    /// same canonical tile one rendering zoom further.
    pub open spec fn children(self, source_max_zoom: nat) -> Seq<OverscaledTile> {
        if self.canonical.z < source_max_zoom {
            seq![
                self.child(0, 0),
                self.child(1, 0),
                self.child(0, 1),
                self.child(1, 1),
            ]
        } else {
            seq![OverscaledTile { overscaled_z: self.overscaled_z + 1, ..self }]
        }
    }

    /// The canonical child in column `dx` and row `dy`, rendered at its own
    /// zoom, in the same world copy.
    pub open spec fn child(self, dx: nat, dy: nat) -> OverscaledTile {
        OverscaledTile {
            overscaled_z: self.canonical.z + 1,
            wrap: self.wrap,
            canonical: self.canonical.child(dx, dy),
        }
    }
}

/// The world copy as a natural number: 0, 1, 2, ... stand for 0, -1, 1, ...
pub open spec fn wrap_index(wrap: int) -> nat {
    if wrap < 0 {
        (-2 * wrap - 1) as nat
    } else {
        (2 * wrap) as nat
    }
}

/// The position of a tile among all tiles of its zoom in all world copies.
pub open spec fn key_number(wrap: int, z: nat, x: nat, y: nat) -> nat {
    pow2(z) * pow2(z) * wrap_index(wrap) + pow2(z) * y + x
}

/// The end of a key: the rendering zoom in base 36. Where it needs more than
/// one digit a hyphen stands before it, so that the end of the zoom before it
/// can be told.
pub open spec fn key_suffix(overscaled_z: nat) -> Seq<char> {
    if overscaled_z < 36 {
        radix_digits(overscaled_z, 36)
    } else {
        seq!['-'] + radix_digits(overscaled_z, 36)
    }
}

/// The key of a tile: its position, its zoom and its rendering zoom, each
/// written in base 36, one after the other. The zoom of a tile has one
/// digit, and so has the rendering zoom unless a hyphen sets it off.
pub open spec fn key_spec(wrap: int, overscaled_z: nat, z: nat, x: nat, y: nat) -> Seq<char> {
    radix_digits(key_number(wrap, z, x, y), 36) + radix_digits(z, 36) + key_suffix(overscaled_z)
}

/// The key of an overscaled tile.
pub open spec fn overscaled_key(t: OverscaledTile) -> Seq<char> {
    key_spec(t.wrap, t.overscaled_z, t.canonical.z, t.canonical.x, t.canonical.y)
}

/// The key of a canonical tile: that of the tile in the first world copy,
/// rendered at its own zoom.
pub open spec fn canonical_key(t: TileCoord) -> Seq<char> {
    key_spec(0, t.z, t.z, t.x, t.y)
}

/// The row of a tile as a URL counts it: from the bottom under TMS, from the
/// top otherwise.
pub open spec fn url_row(t: TileCoord, scheme: Option<Scheme>) -> nat {
    if scheme == Some(Scheme::TMS) {
        (pow2(t.z) - t.y - 1) as nat
    } else {
        t.y
    }
}

/// The two hexadecimal digits that spread tiles over storage prefixes: the
/// low four bits of the column, then those of the row.
pub open spec fn url_prefix(t: TileCoord) -> Seq<char> {
    radix_digits(t.x % 16, 16) + radix_digits(t.y % 16, 16)
}

/// A URL template with its placeholders filled in for a tile: `{prefix}`
/// first, then `{z}`, `{x}` and `{y}`, the numbers in decimal.
pub open spec fn url_spec(template: Seq<char>, t: TileCoord, scheme: Option<Scheme>) -> Seq<char> {
    let with_prefix = replace_all(template, "{prefix}"@, url_prefix(t));
    let with_z = replace_all(with_prefix, "{z}"@, radix_digits(t.z, 10));
    let with_x = replace_all(with_z, "{x}"@, radix_digits(t.x, 10));
    replace_all(with_x, "{y}"@, radix_digits(url_row(t, scheme), 10))
}

/// Which of `count` URL templates serves a tile: tiles are spread over the
/// templates by the sum of column and row.
pub open spec fn url_index(t: TileCoord, count: nat) -> int {
    ((t.x + t.y) % count) as int
}

/// The text of a canonical tile: zoom, column and row in decimal, with
/// slashes between them.
pub open spec fn canonical_text(t: TileCoord) -> Seq<char> {
    radix_digits(t.z, 10) + seq!['/'] + radix_digits(t.x, 10) + seq!['/'] + radix_digits(t.y, 10)
}

/// The text of an overscaled tile: rendering zoom, column and row in
/// decimal, with slashes between them.
pub open spec fn overscaled_text(t: OverscaledTile) -> Seq<char> {
    radix_digits(t.overscaled_z, 10) + seq!['/'] + radix_digits(t.canonical.x, 10) + seq!['/']
        + radix_digits(t.canonical.y, 10)
}

/// Writes three numbers in decimal with slashes between them.
fn slashed(a: u32, b: u32, c: u32) -> (result: String)
    ensures
        result@ == radix_digits(a as nat, 10) + seq!['/'] + radix_digits(b as nat, 10) + seq!['/']
            + radix_digits(c as nat, 10),
{
    proof {
        reveal_strlit("/");
    }
    assert("/"@ =~= seq!['/']);
    let mut text = radix_string(a as u128, 10);
    text.append("/");
    text.append(radix_string(b as u128, 10).as_str());
    text.append("/");
    text.append(radix_string(c as u128, 10).as_str());
    text
}

/// Computes the key of a tile.
pub fn calculate_key(wrap: i32, overscaled_z: u32, z: u32, x: u32, y: u32) -> (key: String)
    requires
        z <= 25,
    ensures
        key@ == key_spec(wrap as int, overscaled_z as nat, z as nat, x as nat, y as nat),
{
    let wide: i64 = wrap as i64;
    let index: u128 = if wide < 0 {
        (-1 - 2 * wide) as u128
    } else {
        (2 * wide) as u128
    };
    let dim: u128 = pow2_u64(z) as u128;
    assert(dim * dim <= 33554432 * 33554432) by (nonlinear_arith)
        requires
            0 <= dim <= 33554432,
    ;
    assert(dim * dim * index <= 33554432 * 33554432 * 4294967296) by (nonlinear_arith)
        requires
            0 <= dim * dim <= 33554432 * 33554432,
            0 <= index <= 4294967296,
    ;
    assert(dim * (y as u128) <= 33554432 * 4294967296) by (nonlinear_arith)
        requires
            0 <= dim <= 33554432,
            0 <= (y as u128) <= 4294967296,
    ;
    let number: u128 = dim * dim * index + dim * (y as u128) + (x as u128);
    let mut key = radix_string(number, 36);
    let zoom = radix_string(z as u128, 36);
    let overscaled = radix_string(overscaled_z as u128, 36);
    key.append(zoom.as_str());
    if overscaled_z >= 36 {
        proof {
            reveal_strlit("-");
        }
        assert("-"@ =~= seq!['-']);
        key.append("-");
    }
    key.append(overscaled.as_str());
    assert(key@ =~= key_spec(wrap as int, overscaled_z as nat, z as nat, x as nat, y as nat));
    key
}

/// The address of a tile in the quadtree.
#[derive(Debug, Eq)]
pub struct CanonicalTileId {
    z: u32,
    x: u32,
    y: u32,
    key: String,
}

impl View for CanonicalTileId {
    type V = TileCoord;

    closed spec fn view(&self) -> TileCoord {
        TileCoord { z: self.z as nat, x: self.x as nat, y: self.y as nat }
    }
}

impl Clone for CanonicalTileId {
    fn clone(&self) -> (result: Self)
        ensures
            result == *self,
    {
        Self { z: self.z, x: self.x, y: self.y, key: self.key.clone() }
    }
}

impl PartialEq for CanonicalTileId {
    fn eq(&self, other: &Self) -> (result: bool) {
        self.z == other.z && self.x == other.x && self.y == other.y
    }
}

impl vstd::std_specs::cmp::PartialEqSpecImpl for CanonicalTileId {
    open spec fn obeys_eq_spec() -> bool {
        true
    }

    open spec fn eq_spec(&self, other: &Self) -> bool {
        self.view() == other.view()
    }
}

impl CanonicalTileId {
    /// The cached key.
    pub closed spec fn spec_key(&self) -> Seq<char> {
        self.key@
    }

    /// The address is valid and the cached key is the key of the address.
    pub open spec fn wf(&self) -> bool {
        &&& self@.valid()
        &&& self.spec_key() == canonical_key(self@)
    }

    /// The tile in column `x` and row `y` of zoom `z`.
    pub fn new(z: u32, x: u32, y: u32) -> (result: Self)
        requires
            z <= 25,
            x < pow2(z as nat),
            y < pow2(z as nat),
        ensures
            result.wf(),
            result@ == (TileCoord { z: z as nat, x: x as nat, y: y as nat }),
    {
        Self { z, x, y, key: calculate_key(0, z, z, x, y) }
    }

    /// The zoom.
    pub fn z(&self) -> (result: u32)
        ensures
            result == self@.z,
    {
        self.z
    }

    /// The column.
    pub fn x(&self) -> (result: u32)
        ensures
            result == self@.x,
    {
        self.x
    }

    /// The row.
    pub fn y(&self) -> (result: u32)
        ensures
            result == self@.y,
    {
        self.y
    }

    /// The key of this tile.
    pub fn key(&self) -> (result: String)
        ensures
            result@ == self.spec_key(),
    {
        self.key.clone()
    }

    /// The URL of this tile: one of `urls`, chosen by the sum of column and
    /// row, with its placeholders filled in.
    pub fn url(&self, urls: &[String], scheme: Option<Scheme>) -> (result: String)
        requires
            self.wf(),
            urls@.len() > 0,
        ensures
            result@ == url_spec(urls@[url_index(self@, urls@.len())]@, self@, scheme),
    {
        proof {
            lemma_pow2_bound(self@.z);
            reveal_strlit("{prefix}");
            reveal_strlit("{z}");
            reveal_strlit("{x}");
            reveal_strlit("{y}");
        }
        let index: usize = (self.x + self.y) as usize % urls.len();
        let y: u32 = match scheme {
            Some(Scheme::TMS) => (pow2_u64(self.z) - self.y as u64 - 1) as u32,
            _ => self.y,
        };
        let mut prefix = radix_string((self.x % 16) as u128, 16);
        prefix.append(radix_string((self.y % 16) as u128, 16).as_str());
        let with_prefix = str_replace(urls[index].as_str(), "{prefix}", prefix.as_str());
        let with_z = str_replace(
            with_prefix.as_str(),
            "{z}",
            radix_string(self.z as u128, 10).as_str(),
        );
        let with_x = str_replace(with_z.as_str(), "{x}", radix_string(self.x as u128, 10).as_str());
        str_replace(with_x.as_str(), "{y}", radix_string(y as u128, 10).as_str())
    }

    /// This tile as text: `z/x/y`.
    pub fn to_string(&self) -> (result: String)
        ensures
            result@ == canonical_text(self@),
    {
        slashed(self.z, self.x, self.y)
    }
}

/// A canonical tile in one copy of the world.
#[derive(Debug)]
pub struct UnwrappedTileId {
    wrap: i32,
    canonical: CanonicalTileId,
    key: String,
}

impl UnwrappedTileId {
    /// The world copy.
    pub closed spec fn spec_wrap(&self) -> int {
        self.wrap as int
    }

    /// The canonical tile.
    pub closed spec fn spec_canonical(&self) -> CanonicalTileId {
        self.canonical
    }

    /// The cached key.
    pub closed spec fn spec_key(&self) -> Seq<char> {
        self.key@
    }

    /// The canonical tile is well formed and the cached key is the key of
    /// the tile in its world copy, rendered at its own zoom.
    pub open spec fn wf(&self) -> bool {
        let c = self.spec_canonical()@;
        &&& self.spec_canonical().wf()
        &&& self.spec_key() == key_spec(self.spec_wrap(), c.z, c.z, c.x, c.y)
    }

    /// The tile `canonical` in world copy `wrap`.
    pub fn new(wrap: i32, canonical: &CanonicalTileId) -> (result: Self)
        requires
            canonical.wf(),
        ensures
            result.wf(),
            result.spec_wrap() == wrap,
            result.spec_canonical() == *canonical,
    {
        Self {
            wrap,
            canonical: canonical.clone(),
            key: calculate_key(wrap, canonical.z, canonical.z, canonical.x, canonical.y),
        }
    }

    /// The world copy.
    pub fn wrap(&self) -> (result: i32)
        ensures
            result == self.spec_wrap(),
    {
        self.wrap
    }

    /// The canonical tile.
    pub fn canonical(&self) -> (result: &CanonicalTileId)
        ensures
            *result == self.spec_canonical(),
    {
        &self.canonical
    }

    /// The key of this tile.
    pub fn key(&self) -> (result: String)
        ensures
            result@ == self.spec_key(),
    {
        self.key.clone()
    }
}

/// A tile as it is rendered: a canonical tile, the world copy it is drawn
/// in, and the zoom it is drawn at.
#[derive(Debug, Eq)]
pub struct OverscaledTileId {
    overscaled_z: u32,
    wrap: i32,
    canonical: CanonicalTileId,
    key: String,
}

impl View for OverscaledTileId {
    type V = OverscaledTile;

    closed spec fn view(&self) -> OverscaledTile {
        OverscaledTile {
            overscaled_z: self.overscaled_z as nat,
            wrap: self.wrap as int,
            canonical: self.canonical@,
        }
    }
}

impl Clone for OverscaledTileId {
    fn clone(&self) -> (result: Self)
        ensures
            result == *self,
    {
        Self {
            overscaled_z: self.overscaled_z,
            wrap: self.wrap,
            canonical: self.canonical.clone(),
            key: self.key.clone(),
        }
    }
}

impl PartialEq for OverscaledTileId {
    fn eq(&self, other: &Self) -> (result: bool) {
        self.overscaled_z == other.overscaled_z && self.wrap == other.wrap && self.canonical
            == other.canonical
    }
}

impl vstd::std_specs::cmp::PartialEqSpecImpl for OverscaledTileId {
    open spec fn obeys_eq_spec() -> bool {
        true
    }

    open spec fn eq_spec(&self, other: &Self) -> bool {
        self.view() == other.view()
    }
}

impl OverscaledTileId {
    /// The canonical tile.
    pub closed spec fn spec_canonical(&self) -> CanonicalTileId {
        self.canonical
    }

    /// The cached key.
    pub closed spec fn spec_key(&self) -> Seq<char> {
        self.key@
    }

    /// The tile is valid, its canonical part is well formed and is the one
    /// the view shows, and the cached key is the key of the tile.
    pub open spec fn wf(&self) -> bool {
        &&& self@.valid()
        &&& self.spec_canonical().wf()
        &&& self.spec_canonical()@ == self@.canonical
        &&& self.spec_key() == overscaled_key(self@)
    }

    /// The tile in column `x` and row `y` of zoom `z`, in world copy `wrap`,
    /// rendered at zoom `overscaled_z`.
    pub fn new(overscaled_z: u32, wrap: i32, z: u32, x: u32, y: u32) -> (result: Self)
        requires
            overscaled_z >= z,
            z <= 25,
            x < pow2(z as nat),
            y < pow2(z as nat),
        ensures
            result.wf(),
            result@ == (OverscaledTile {
                overscaled_z: overscaled_z as nat,
                wrap: wrap as int,
                canonical: TileCoord { z: z as nat, x: x as nat, y: y as nat },
            }),
    {
        Self {
            overscaled_z,
            wrap,
            canonical: CanonicalTileId::new(z, x, y),
            key: calculate_key(wrap, overscaled_z, z, x, y),
        }
    }

    /// The zoom this tile is rendered at.
    pub fn overscaled_z(&self) -> (result: u32)
        ensures
            result == self@.overscaled_z,
    {
        self.overscaled_z
    }

    /// The world copy.
    pub fn wrap(&self) -> (result: i32)
        ensures
            result == self@.wrap,
    {
        self.wrap
    }

    /// The canonical tile.
    pub fn canonical(&self) -> (result: &CanonicalTileId)
        ensures
            *result == self.spec_canonical(),
    {
        &self.canonical
    }

    /// The tile at rendering zoom `target_z` that covers this one.
    pub fn scaled_to(&self, target_z: u32) -> (result: OverscaledTileId)
        requires
            self.wf(),
            target_z <= self@.overscaled_z,
        ensures
            result.wf(),
            result@ == self@.scaled_to(target_z as nat),
    {
        if target_z > self.canonical.z {
            OverscaledTileId::new(
                target_z,
                self.wrap,
                self.canonical.z,
                self.canonical.x,
                self.canonical.y,
            )
        } else {
            let z_diff: u32 = self.canonical.z - target_z;
            proof {
                lemma_ancestor_valid(self.canonical@, z_diff as nat);
                lemma_u32_shr_is_div(self.canonical.x, z_diff);
                lemma_u32_shr_is_div(self.canonical.y, z_diff);
            }
            OverscaledTileId::new(
                target_z,
                self.wrap,
                target_z,
                self.canonical.x >> z_diff,
                self.canonical.y >> z_diff,
            )
        }
    }

    /// The tiles one rendering step below this one.
    pub fn children(&self, source_max_zoom: u32) -> (result: Vec<OverscaledTileId>)
        requires
            self.wf(),
            self@.canonical.z < source_max_zoom ==> self@.canonical.z < 25,
            self@.canonical.z >= source_max_zoom ==> self@.overscaled_z < u32::MAX,
        ensures
            result@.len() == self@.children(source_max_zoom as nat).len(),
            forall|i: int|
                0 <= i < result@.len() ==> (#[trigger] result@[i]).wf() && result@[i]@
                    == self@.children(source_max_zoom as nat)[i],
    {
        if self.canonical.z >= source_max_zoom {
            return vec![
                OverscaledTileId::new(
                    self.overscaled_z + 1,
                    self.wrap,
                    self.canonical.z,
                    self.canonical.x,
                    self.canonical.y,
                ),
            ];
        }
        proof {
            lemma_child_valid(self.canonical@, 0, 0);
            lemma_child_valid(self.canonical@, 1, 0);
            lemma_child_valid(self.canonical@, 0, 1);
            lemma_child_valid(self.canonical@, 1, 1);
            lemma_pow2_bound(self.canonical@.z);
        }
        let z: u32 = self.canonical.z + 1;
        let x: u32 = self.canonical.x * 2;
        let y: u32 = self.canonical.y * 2;

        vec![
            OverscaledTileId::new(z, self.wrap, z, x, y),
            OverscaledTileId::new(z, self.wrap, z, x + 1, y),
            OverscaledTileId::new(z, self.wrap, z, x, y + 1),
            OverscaledTileId::new(z, self.wrap, z, x + 1, y + 1),
        ]
    }

    /// The same tile in the first world copy: the address under which its
    /// data is stored, whichever copy of the world shows it.
    pub fn wrapped(&self) -> (result: OverscaledTileId)
        requires
            self.wf(),
        ensures
            result.wf(),
            result@ == self@.wrapped(),
    {
        OverscaledTileId::new(
            self.overscaled_z,
            0,
            self.canonical.z,
            self.canonical.x,
            self.canonical.y,
        )
    }

    /// The key of this tile.
    pub fn key(&self) -> (result: String)
        ensures
            result@ == self.spec_key(),
    {
        self.key.clone()
    }

    /// This tile as text: `overscaled_z/x/y`.
    pub fn to_string(&self) -> (result: String)
        ensures
            result@ == overscaled_text(self@),
    {
        slashed(self.overscaled_z, self.canonical.x, self.canonical.y)
    }
}

/// A child of a valid tile above zoom 25 is valid.
pub proof fn lemma_child_valid(t: TileCoord, dx: nat, dy: nat)
    requires
        t.valid(),
        t.z < 25,
        dx <= 1,
        dy <= 1,
    ensures
        t.child(dx, dy).valid(),
{
    lemma_pow2_unfold(t.z + 1);
}

/// An ancestor of a valid tile is valid.
pub proof fn lemma_ancestor_valid(t: TileCoord, levels: nat)
    requires
        t.valid(),
        levels <= t.z,
    ensures
        t.ancestor(levels).valid(),
{
    let up = (t.z - levels) as nat;
    lemma_pow2_adds(up, levels);
    vstd::arithmetic::power2::lemma_pow2_pos(levels);
    lemma_multiply_divide_lt(t.x as int, pow2(levels) as int, pow2(up) as int);
    lemma_multiply_divide_lt(t.y as int, pow2(levels) as int, pow2(up) as int);
}

/// Different world copies have different numbers.
pub proof fn lemma_wrap_index_injective(a: int, b: int)
    requires
        wrap_index(a) == wrap_index(b),
    ensures
        a == b,
{
}

/// The position of a tile tells its world copy, column and row apart.
pub proof fn lemma_key_number_injective(
    z: nat,
    wrap_a: int,
    x_a: nat,
    y_a: nat,
    wrap_b: int,
    x_b: nat,
    y_b: nat,
)
    requires
        x_a < pow2(z),
        y_a < pow2(z),
        x_b < pow2(z),
        y_b < pow2(z),
        key_number(wrap_a, z, x_a, y_a) == key_number(wrap_b, z, x_b, y_b),
    ensures
        wrap_a == wrap_b,
        x_a == x_b,
        y_a == y_b,
{
    let dim = pow2(z) as int;
    let n = key_number(wrap_a, z, x_a, y_a) as int;
    let w_a = wrap_index(wrap_a) as int;
    let w_b = wrap_index(wrap_b) as int;
    assert(dim * dim * w_a + dim * y_a + x_a == (w_a * dim + y_a) * dim + x_a)
        by (nonlinear_arith);
    assert(dim * dim * w_b + dim * y_b + x_b == (w_b * dim + y_b) * dim + x_b)
        by (nonlinear_arith);
    lemma_fundamental_div_mod_converse(n, dim, w_a * dim + y_a, x_a as int);
    lemma_fundamental_div_mod_converse(n, dim, w_b * dim + y_b, x_b as int);
    let rows = n / dim;
    lemma_fundamental_div_mod_converse(rows, dim, w_a, y_a as int);
    lemma_fundamental_div_mod_converse(rows, dim, w_b, y_b as int);
    lemma_wrap_index_injective(wrap_a, wrap_b);
}

/// How a key is made up: the digits of the position, none of them a hyphen;
/// the one digit of the zoom; then either the one digit of the rendering
/// zoom, or a hyphen and the digits of the rendering zoom.
pub proof fn lemma_key_shape(wrap: int, overscaled_z: nat, z: nat, x: nat, y: nat)
    requires
        z < 36,
    ensures
        ({
            let key = key_spec(wrap, overscaled_z, z, x, y);
            let head = radix_digits(key_number(wrap, z, x, y), 36);
            let tail = radix_digits(overscaled_z, 36);
            let p = head.len() as int;
            &&& p >= 1
            &&& key.len() >= p + 2
            &&& key.subrange(0, p) == head
            &&& key[p] == digit_char(z)
            &&& forall|i: int| 0 <= i <= p ==> #[trigger] key[i] != '-'
            &&& overscaled_z < 36 ==> key.len() == p + 2 && key[p + 1] == digit_char(overscaled_z)
                && key[p + 1] != '-'
            &&& overscaled_z >= 36 ==> key[p + 1] == '-' && key.len() == p + 2 + tail.len()
                && key.subrange(p + 2, key.len() as int) == tail
        }),
{
    let key = key_spec(wrap, overscaled_z, z, x, y);
    let n = key_number(wrap, z, x, y);
    let head = radix_digits(n, 36);
    let tail = radix_digits(overscaled_z, 36);
    let p = head.len() as int;
    lemma_radix_digits_len(n, 36);
    lemma_radix_digits_len(z, 36);
    lemma_radix_digits_len(overscaled_z, 36);
    lemma_radix_digits_no_hyphen(n);
    lemma_digit_char_no_hyphen(z);
    assert(radix_digits(z, 36) =~= seq![digit_char(z)]);
    assert(key.subrange(0, p) =~= head);
    assert forall|i: int| 0 <= i <= p implies #[trigger] key[i] != '-' by {
        if i < p {
            assert(key[i] == head[i]);
        }
    }
    if overscaled_z < 36 {
        lemma_digit_char_no_hyphen(overscaled_z);
        assert(tail =~= seq![digit_char(overscaled_z)]);
    } else {
        assert(key.subrange(p + 2, key.len() as int) =~= tail);
    }
}

/// Tiles with the same key are the same tile.
pub proof fn lemma_key_unique(a: OverscaledTile, b: OverscaledTile)
    requires
        a.valid(),
        b.valid(),
        overscaled_key(a) == overscaled_key(b),
    ensures
        a == b,
{
    let n_a = key_number(a.wrap, a.canonical.z, a.canonical.x, a.canonical.y);
    let n_b = key_number(b.wrap, b.canonical.z, b.canonical.x, b.canonical.y);
    let key = overscaled_key(a);
    let p_a = radix_digits(n_a, 36).len() as int;
    let p_b = radix_digits(n_b, 36).len() as int;
    lemma_key_shape(a.wrap, a.overscaled_z, a.canonical.z, a.canonical.x, a.canonical.y);
    lemma_key_shape(b.wrap, b.overscaled_z, b.canonical.z, b.canonical.x, b.canonical.y);
    // the hyphen, or the end of the key, tells where the position ends
    if a.overscaled_z >= 36 {
        assert(key[p_a + 1] == '-');
        assert(p_a + 1 > p_b);
        if b.overscaled_z < 36 {
            assert(key[p_b + 1] != '-');
        } else {
            assert(key[p_b + 1] == '-');
            assert(p_b + 1 > p_a);
        }
    } else if b.overscaled_z >= 36 {
        assert(key[p_b + 1] == '-');
        assert(p_b + 1 > p_a);
        assert(key[p_a + 1] != '-');
    }
    assert(p_a == p_b);
    assert((a.overscaled_z < 36) == (b.overscaled_z < 36));
    lemma_radix_digits_injective(n_a, n_b);
    lemma_digit_char_injective(a.canonical.z, b.canonical.z);
    if a.overscaled_z < 36 {
        lemma_digit_char_injective(a.overscaled_z, b.overscaled_z);
    } else {
        lemma_radix_digits_injective(a.overscaled_z, b.overscaled_z);
    }
    lemma_key_number_injective(
        a.canonical.z,
        a.wrap,
        a.canonical.x,
        a.canonical.y,
        b.wrap,
        b.canonical.x,
        b.canonical.y,
    );
}

/// Two well-formed ids have the same key exactly where they stand for the
/// same tile: the same rendering zoom, world copy, zoom, column and row.
pub proof fn lemma_id_key_unique(a: OverscaledTileId, b: OverscaledTileId)
    requires
        a.wf(),
        b.wf(),
    ensures
        a.spec_key() == b.spec_key() <==> a@ == b@,
{
    if a.spec_key() == b.spec_key() {
        lemma_key_unique(a@, b@);
    }
}

/// Two well-formed canonical ids have the same key exactly where they stand
/// for the same tile.
pub proof fn lemma_canonical_key_unique(a: CanonicalTileId, b: CanonicalTileId)
    requires
        a.wf(),
        b.wf(),
    ensures
        a.spec_key() == b.spec_key() <==> a@ == b@,
{
    if a.spec_key() == b.spec_key() {
        lemma_key_unique(
            OverscaledTile { overscaled_z: a@.z, wrap: 0, canonical: a@ },
            OverscaledTile { overscaled_z: b@.z, wrap: 0, canonical: b@ },
        );
    }
}

/// A tile in the first world copy is its own wrapped tile, wrapping twice
/// is wrapping once, and only the world copy is changed by it.
pub proof fn lemma_wrapped(t: OverscaledTile)
    ensures
        t.wrapped().wrap == 0,
        t.wrapped().overscaled_z == t.overscaled_z,
        t.wrapped().canonical == t.canonical,
        t.wrapped().wrapped() == t.wrapped(),
        t.valid() ==> t.wrapped().valid(),
        t.wrap == 0 ==> t.wrapped() == t,
{
}

/// Below the greatest zoom of a source a tile has four children: the tiles
/// of the next zoom in the columns `2x` and `2x + 1` and the rows `2y` and
/// `2y + 1`, each rendered at its own zoom. From there on it has one: itself,
/// rendered one zoom further. All of them lie in the world copy of the tile.
pub proof fn lemma_children(t: OverscaledTile, source_max_zoom: nat)
    ensures
        t.canonical.z < source_max_zoom ==> {
            let c = t.children(source_max_zoom);
            &&& c.len() == 4
            &&& forall|i: int|
                0 <= i < 4 ==> {
                    &&& (#[trigger] c[i]).canonical.z == t.canonical.z + 1
                    &&& c[i].overscaled_z == t.canonical.z + 1
                    &&& c[i].wrap == t.wrap
                    &&& c[i].canonical.x == 2 * t.canonical.x + i % 2
                    &&& c[i].canonical.y == 2 * t.canonical.y + i / 2
                }
        },
        t.canonical.z >= source_max_zoom ==> {
            let c = t.children(source_max_zoom);
            &&& c.len() == 1
            &&& c[0].canonical == t.canonical
            &&& c[0].wrap == t.wrap
            &&& c[0].overscaled_z == t.overscaled_z + 1
        },
{
}

/// A child scaled back to the zoom of its parent is the parent, rendered at
/// its own zoom.
pub proof fn lemma_child_scaled_back(t: OverscaledTile, dx: nat, dy: nat)
    requires
        dx <= 1,
        dy <= 1,
    ensures
        t.child(dx, dy).scaled_to(t.canonical.z) == (OverscaledTile {
            overscaled_z: t.canonical.z,
            ..t
        }),
{
    vstd::arithmetic::power2::lemma2_to64();
    let c = t.child(dx, dy).canonical;
    assert((c.z - t.canonical.z) as nat == 1);
    assert(c.x / 2 == t.canonical.x);
    assert(c.y / 2 == t.canonical.y);
}

} // verus!
