//! The names and dictionary keys that the watermarking logic reads and writes,
//! as bytes.
use vstd::prelude::*;

verus! {

/// `Type`
pub open spec fn type_entry_key() -> Seq<u8> {
    seq![84u8, 121, 112, 101]
}

/// `Type`, to be stored.
pub fn type_entry_name() -> (k: Vec<u8>)
    ensures
        k@ == type_entry_key(),
{
    vec![84u8, 121, 112, 101]
}

/// `XObject`
pub open spec fn xobject_key() -> Seq<u8> {
    seq![88u8, 79, 98, 106, 101, 99, 116]
}

/// `XObject`, to be stored.
pub fn xobject_name() -> (k: Vec<u8>)
    ensures
        k@ == xobject_key(),
{
    vec![88u8, 79, 98, 106, 101, 99, 116]
}

/// `Subtype`
pub open spec fn subtype_key() -> Seq<u8> {
    seq![83u8, 117, 98, 116, 121, 112, 101]
}

/// `Subtype`, to be stored.
pub fn subtype_name() -> (k: Vec<u8>)
    ensures
        k@ == subtype_key(),
{
    vec![83u8, 117, 98, 116, 121, 112, 101]
}

/// `Image`
pub open spec fn image_key() -> Seq<u8> {
    seq![73u8, 109, 97, 103, 101]
}

/// `Image`, to be stored.
pub fn image_name() -> (k: Vec<u8>)
    ensures
        k@ == image_key(),
{
    vec![73u8, 109, 97, 103, 101]
}

/// `Width`
pub open spec fn width_key() -> Seq<u8> {
    seq![87u8, 105, 100, 116, 104]
}

/// `Width`, to be stored.
pub fn width_name() -> (k: Vec<u8>)
    ensures
        k@ == width_key(),
{
    vec![87u8, 105, 100, 116, 104]
}

/// `Height`
pub open spec fn height_key() -> Seq<u8> {
    seq![72u8, 101, 105, 103, 104, 116]
}

/// `Height`, to be stored.
pub fn height_name() -> (k: Vec<u8>)
    ensures
        k@ == height_key(),
{
    vec![72u8, 101, 105, 103, 104, 116]
}

/// `ColorSpace`
pub open spec fn color_space_key() -> Seq<u8> {
    seq![67u8, 111, 108, 111, 114, 83, 112, 97, 99, 101]
}

/// `ColorSpace`, to be stored.
pub fn color_space_name() -> (k: Vec<u8>)
    ensures
        k@ == color_space_key(),
{
    vec![67u8, 111, 108, 111, 114, 83, 112, 97, 99, 101]
}

/// `DeviceGray`
pub open spec fn device_gray_key() -> Seq<u8> {
    seq![68u8, 101, 118, 105, 99, 101, 71, 114, 97, 121]
}

/// `DeviceGray`, to be stored.
pub fn device_gray_name() -> (k: Vec<u8>)
    ensures
        k@ == device_gray_key(),
{
    vec![68u8, 101, 118, 105, 99, 101, 71, 114, 97, 121]
}

/// `DeviceRGB`
pub open spec fn device_rgb_key() -> Seq<u8> {
    seq![68u8, 101, 118, 105, 99, 101, 82, 71, 66]
}

/// `DeviceRGB`, to be stored.
pub fn device_rgb_name() -> (k: Vec<u8>)
    ensures
        k@ == device_rgb_key(),
{
    vec![68u8, 101, 118, 105, 99, 101, 82, 71, 66]
}

/// `BitsPerComponent`
pub open spec fn bits_per_component_key() -> Seq<u8> {
    seq![66u8, 105, 116, 115, 80, 101, 114, 67, 111, 109, 112, 111, 110, 101, 110, 116]
}

/// `BitsPerComponent`, to be stored.
pub fn bits_per_component_name() -> (k: Vec<u8>)
    ensures
        k@ == bits_per_component_key(),
{
    vec![66u8, 105, 116, 115, 80, 101, 114, 67, 111, 109, 112, 111, 110, 101, 110, 116]
}

/// `SMask`
pub open spec fn smask_key() -> Seq<u8> {
    seq![83u8, 77, 97, 115, 107]
}

/// `SMask`, to be stored.
pub fn smask_name() -> (k: Vec<u8>)
    ensures
        k@ == smask_key(),
{
    vec![83u8, 77, 97, 115, 107]
}

/// `Resources`
pub open spec fn resources_key() -> Seq<u8> {
    seq![82u8, 101, 115, 111, 117, 114, 99, 101, 115]
}

/// `Resources`, to be stored.
pub fn resources_name() -> (k: Vec<u8>)
    ensures
        k@ == resources_key(),
{
    vec![82u8, 101, 115, 111, 117, 114, 99, 101, 115]
}

/// `Contents`
pub open spec fn contents_key() -> Seq<u8> {
    seq![67u8, 111, 110, 116, 101, 110, 116, 115]
}

/// `Pages`
pub open spec fn pages_key() -> Seq<u8> {
    seq![80u8, 97, 103, 101, 115]
}

/// `Pages`, to be stored.
pub fn pages_name() -> (k: Vec<u8>)
    ensures
        k@ == pages_key(),
{
    vec![80u8, 97, 103, 101, 115]
}

/// `Kids`
pub open spec fn kids_key() -> Seq<u8> {
    seq![75u8, 105, 100, 115]
}

/// `Kids`, to be stored.
pub fn kids_name() -> (k: Vec<u8>)
    ensures
        k@ == kids_key(),
{
    vec![75u8, 105, 100, 115]
}

/// `Count`
pub open spec fn count_key() -> Seq<u8> {
    seq![67u8, 111, 117, 110, 116]
}

/// `Count`, to be stored.
pub fn count_name() -> (k: Vec<u8>)
    ensures
        k@ == count_key(),
{
    vec![67u8, 111, 117, 110, 116]
}

/// `Root`
pub open spec fn root_key() -> Seq<u8> {
    seq![82u8, 111, 111, 116]
}

/// `Root`, to be stored.
pub fn root_name() -> (k: Vec<u8>)
    ensures
        k@ == root_key(),
{
    vec![82u8, 111, 111, 116]
}

/// `Im`
pub open spec fn image_prefix_key() -> Seq<u8> {
    seq![73u8, 109]
}

/// `Im`, to be stored.
pub fn image_prefix_name() -> (k: Vec<u8>)
    ensures
        k@ == image_prefix_key(),
{
    vec![73u8, 109]
}

/// `CropBox`
pub open spec fn crop_box_key() -> Seq<u8> {
    seq![67u8, 114, 111, 112, 66, 111, 120]
}

/// `CropBox`, to be stored.
pub fn crop_box_name() -> (k: Vec<u8>)
    ensures
        k@ == crop_box_key(),
{
    vec![67u8, 114, 111, 112, 66, 111, 120]
}

/// `MediaBox`
pub open spec fn media_box_key() -> Seq<u8> {
    seq![77u8, 101, 100, 105, 97, 66, 111, 120]
}

/// `MediaBox`, to be stored.
pub fn media_box_name() -> (k: Vec<u8>)
    ensures
        k@ == media_box_key(),
{
    vec![77u8, 101, 100, 105, 97, 66, 111, 120]
}

/// `Parent`
pub open spec fn parent_key() -> Seq<u8> {
    seq![80u8, 97, 114, 101, 110, 116]
}

/// `Parent`, to be stored.
pub fn parent_name() -> (k: Vec<u8>)
    ensures
        k@ == parent_key(),
{
    vec![80u8, 97, 114, 101, 110, 116]
}

/// `Rotate`
pub open spec fn rotate_key() -> Seq<u8> {
    seq![82u8, 111, 116, 97, 116, 101]
}

/// `Rotate`, to be stored.
pub fn rotate_name() -> (k: Vec<u8>)
    ensures
        k@ == rotate_key(),
{
    vec![82u8, 111, 116, 97, 116, 101]
}

} // verus!
