//! Why the order of the BlueSky field is prime, and what the orders of its roots of unity are.
use crate::modular::{
    is_prime, lemma_congr_divisor, lemma_divisible, lemma_mul_congr, lemma_multiple,
    lemma_no_zero_divisors,
};
use crate::orders::{
    coprime, lemma_cube, lemma_not_one, lemma_order_bound, lemma_prime_if,
    lemma_prime_power_divides, lemma_prime_power_order, lemma_product_order, lemma_square,
};
use crate::transform::{lemma_pow_nonzero, primitive_root};
use vstd::arithmetic::div_mod::lemma_small_mod;
use vstd::arithmetic::power::{lemma_pow0, lemma_pow1, lemma_pow_adds, lemma_pow_positive, pow};
use vstd::arithmetic::power2::{lemma2_to64_rest, lemma_pow2};
use vstd::prelude::*;

verus! {

/// The order of the BlueSky field.
pub open spec fn field_order() -> int {
    0x7ffffffffffffffffffffffffffffffe0673ddf29e9b5547c000000000000001int
}

/// The root of unity whose order is `2^62`.
pub open spec fn two_power_root() -> int {
    0x2772569d549e1249ca6891eceba43568f6e0a747a2afe898b3977ca1a5bbfc9cint
}

/// The root of unity whose order is `3^39`.
pub open spec fn three_power_root() -> int {
    0x1b6292b3a6f8a32da98705fee2d66e8fe35f48642a417a72f1a4ca414adfd9e6int
}

/// The generator of the multiplicative group that serves as a shift.
pub open spec fn group_generator() -> int {
    5
}

/// Repeated squaring of the two-power root: the powers with exponents up to `2^16`.
proof fn lemma_two_power_chain_1()
    ensures
        pow(two_power_root(), 0x10000nat) % field_order()
            == 0x7938c95604118e75f8871256b2ac66ed5f5f188c60073dbc6700c0709333864int,
{
    let a = two_power_root();
    let p = field_order();
    lemma_pow1(a);
    let a0 = 0x2772569d549e1249ca6891eceba43568f6e0a747a2afe898b3977ca1a5bbfc9cint;
    let a1 = 0xdb38173e8d49dc24519c5c44e784cce6f2367b2edfc64b31655ebe1ccb5c56dint;
    let a2 = 0x71928e3d9b9badb9c0609ce16c2634286c591739c0e1b46ce8a01c0238413d6fint;
    let a3 = 0x7630c960313a7691ecb0c1aa1c866551d6e528d4fa8d138de8509241cd617448int;
    let a4 = 0x17f9d7eedbb37f8c3fa36aa766937b7d8f0c59873125467f23d7514680929754int;
    let a5 = 0x34dd68569136509d24e000f3a3fe7a748534677240c439cd7daf5bc42ec5d281int;
    let a6 = 0x6ed963ff96f513d6fd40796b8a4018ae3f21581ec5187e7f021b5ca81f7d94f1int;
    let a7 = 0x4d190459cf7108efdb3f6e4b628e79df5f5291eac6567b478b0fc305b65a832cint;
    let a8 = 0x5bc3de01af17d37d494646f7a2bf17029f29be3922502dab64a44707f6ebecbdint;
    let a9 = 0x4f2159f128089d76d347a98bb933f1b8477ca703536d3ca8ed715910467395fdint;
    let a10 = 0x19f0284c7359ccaf93a6cda2a4d6ad3ec3ec9af9d57032db4fea07f84535cf29int;
    let a11 = 0x4671fb82792df21bab79e6a484da31a2172cbc1a2a40f5f8010e8c571903b0ebint;
    let a12 = 0x64fd20ccc99caaafc58ac310468a7acc2432b3cbc330371ba1725df6c4475723int;
    let a13 = 0x760f9f0e782519eb7ce7e396de07834f5a61a42c38a21007230fbd29de2ab278int;
    let a14 = 0x20e9d2c9d6a54104a1a8d07af07f8bab2ccf89b690eb537de7105c9dbf1174cint;
    let a15 = 0xddef8e9be2cbe9e7eb8e3a4ce06e91c4f7ea2cc0dbc249ef602760dc0089349int;
    let a16 = 0x7938c95604118e75f8871256b2ac66ed5f5f188c60073dbc6700c0709333864int;
    lemma_square(a, 0x1, a0, a1, p);
    lemma_square(a, 0x2, a1, a2, p);
    lemma_square(a, 0x4, a2, a3, p);
    lemma_square(a, 0x8, a3, a4, p);
    lemma_square(a, 0x10, a4, a5, p);
    lemma_square(a, 0x20, a5, a6, p);
    lemma_square(a, 0x40, a6, a7, p);
    lemma_square(a, 0x80, a7, a8, p);
    lemma_square(a, 0x100, a8, a9, p);
    lemma_square(a, 0x200, a9, a10, p);
    lemma_square(a, 0x400, a10, a11, p);
    lemma_square(a, 0x800, a11, a12, p);
    lemma_square(a, 0x1000, a12, a13, p);
    lemma_square(a, 0x2000, a13, a14, p);
    lemma_square(a, 0x4000, a14, a15, p);
    lemma_square(a, 0x8000, a15, a16, p);
}

/// Repeated squaring of the two-power root: the powers with exponents up to `2^32`.
proof fn lemma_two_power_chain_2()
    ensures
        pow(two_power_root(), 0x100000000nat) % field_order()
            == 0x749fb4dd9419e195c6bf79734d167f74fe4ee36175f4fd7ade2a0bd953a3300cint,
{
    let a = two_power_root();
    let p = field_order();
    lemma_two_power_chain_1();
    let a16 = 0x7938c95604118e75f8871256b2ac66ed5f5f188c60073dbc6700c0709333864int;
    let a17 = 0x3dc14b71a5468bb2497c44933e0e50aa41ba23e1cc560fbd0ecd3de9d8b31bedint;
    let a18 = 0x28b95639a6d3e05b64730b105cfbbf2222f2fdee248a6efae97785cbe9e3e290int;
    let a19 = 0x57aab5641439f2a5014963dc19c794824bf1220b00a0d001169e88f9723e003aint;
    let a20 = 0x73077917cef52a713b9f64df8ba2f5e444195f1352b99cc359c987c0a4a88a3dint;
    let a21 = 0x3cfef73996dc5509e884c2bf4295f50be587c4c80e69951346b5b85a106a6056int;
    let a22 = 0x41b3bf27507720bf5c6753879262be3fe857ae403413f83abbd972f1581e3655int;
    let a23 = 0x2e2de558c9d27ad701760a4f7f9b26026a947373a98fb86060dacb1ab37f8356int;
    let a24 = 0x6194df23f3f26a69194af2b11dbe69f68c3de701e0614f41bf9c9d5a1f5259c5int;
    let a25 = 0x7e05d836e019b733c965ade9fb6c04bd9d39fadad78ab3506ae9dfe312bdc9aaint;
    let a26 = 0x555692a5f06c044f98c290bf2360d0b3c26b4fc04231f2fc015b99d2dfbff5e3int;
    let a27 = 0x23e497c74fc76ad68170caac0e69a6d642363290749fe6546a03bab6ca24e704int;
    let a28 = 0x583dabcc28b0d6380214820c7520f007e457be87c621d66d0462d3b1f436cff9int;
    let a29 = 0x30bcf805635799e08df600bcca8ee253e64da5311491b6f69bcf4fca8c2a8ca9int;
    let a30 = 0x79f15c9567563ba7ba726bdfefffa3ea1cbf4206390276d84823eca34bb45ed1int;
    let a31 = 0x74040eb448ff70feaffa64e25afc884d9d13a8629708b821adaec4ffdc264936int;
    let a32 = 0x749fb4dd9419e195c6bf79734d167f74fe4ee36175f4fd7ade2a0bd953a3300cint;
    lemma_square(a, 0x10000, a16, a17, p);
    lemma_square(a, 0x20000, a17, a18, p);
    lemma_square(a, 0x40000, a18, a19, p);
    lemma_square(a, 0x80000, a19, a20, p);
    lemma_square(a, 0x100000, a20, a21, p);
    lemma_square(a, 0x200000, a21, a22, p);
    lemma_square(a, 0x400000, a22, a23, p);
    lemma_square(a, 0x800000, a23, a24, p);
    lemma_square(a, 0x1000000, a24, a25, p);
    lemma_square(a, 0x2000000, a25, a26, p);
    lemma_square(a, 0x4000000, a26, a27, p);
    lemma_square(a, 0x8000000, a27, a28, p);
    lemma_square(a, 0x10000000, a28, a29, p);
    lemma_square(a, 0x20000000, a29, a30, p);
    lemma_square(a, 0x40000000, a30, a31, p);
    lemma_square(a, 0x80000000, a31, a32, p);
}

/// Repeated squaring of the two-power root: the powers with exponents up to `2^48`.
proof fn lemma_two_power_chain_3()
    ensures
        pow(two_power_root(), 0x1000000000000nat) % field_order()
            == 0x2ba42397f4ac9d44e9daa66b2a965d35bac62991133e9e7699f5ced986891e59int,
{
    let a = two_power_root();
    let p = field_order();
    lemma_two_power_chain_2();
    let a32 = 0x749fb4dd9419e195c6bf79734d167f74fe4ee36175f4fd7ade2a0bd953a3300cint;
    let a33 = 0x6075a3f7fdac0b5523ed1b758a19999469fb73b85f1b941e9af4719a965ece1dint;
    let a34 = 0x7554ee67fce67e1c8dd378014ceb34779b3cb544401496860d2909f252702328int;
    let a35 = 0x5a2e75863d68f4b36281c57402fe4738ec672b2861e146d37115ac9a26b3bb5dint;
    let a36 = 0x3dbde4a8ba00ac177b4a15531f7755b01735854b64147a6851d2aa2d6b0ec803int;
    let a37 = 0x1a6a4a7c11fa0ee63e799a6d6a03fe9369131e74cb38e716e7a9ec364accc6b0int;
    let a38 = 0x7a7eae46fec661ec36f37616e91c7625b621e0dbba0541dec76aea10c7aac8feint;
    let a39 = 0x20f3ed6668d0aae3e8c92f4490936cfbe045697be77b2f6d1be56bf00d149616int;
    let a40 = 0x7acc28d7ec24c48c5ac78bbb28fe4b53048c1cf4f6bcc1323b1cab42a5aeb496int;
    let a41 = 0x7c0e94c6306b8b32549033596f9c16c8fa8cc6408c4559e3d2fce14d80c5a710int;
    let a42 = 0x187f5d9fa7e8b039de8a81bd96243781c9670d7f9198043a1955167e207b0660int;
    let a43 = 0x544f2f6ab0834a5b00e1a8c2684ac1288c813338f2e0a115578043061437c92eint;
    let a44 = 0x1664fb337a452ea261416a9a8bbe6c6f94ee67789206f08aa456880e7645ddc0int;
    let a45 = 0x278d176ea097ec2bef95e98f83bc1ea7579c934fdd8e320930a85fb3eb1bb45eint;
    let a46 = 0xc2bc7c869039f938f2cfc1eab504e60e05e6c82c52dd37eb23dcf65d042fed4int;
    let a47 = 0x4dc091ba0bba9fc7e13ed7cdd9d692b18122dfa5e2c7a7c6afd1cc54f213923cint;
    let a48 = 0x2ba42397f4ac9d44e9daa66b2a965d35bac62991133e9e7699f5ced986891e59int;
    lemma_square(a, 0x100000000, a32, a33, p);
    lemma_square(a, 0x200000000, a33, a34, p);
    lemma_square(a, 0x400000000, a34, a35, p);
    lemma_square(a, 0x800000000, a35, a36, p);
    lemma_square(a, 0x1000000000, a36, a37, p);
    lemma_square(a, 0x2000000000, a37, a38, p);
    lemma_square(a, 0x4000000000, a38, a39, p);
    lemma_square(a, 0x8000000000, a39, a40, p);
    lemma_square(a, 0x10000000000, a40, a41, p);
    lemma_square(a, 0x20000000000, a41, a42, p);
    lemma_square(a, 0x40000000000, a42, a43, p);
    lemma_square(a, 0x80000000000, a43, a44, p);
    lemma_square(a, 0x100000000000, a44, a45, p);
    lemma_square(a, 0x200000000000, a45, a46, p);
    lemma_square(a, 0x400000000000, a46, a47, p);
    lemma_square(a, 0x800000000000, a47, a48, p);
}

/// Repeated squaring of the two-power root: the powers with exponents up to `2^61`.
proof fn lemma_two_power_chain_4()
    ensures
        pow(two_power_root(), 0x2000000000000000nat) % field_order()
            == 0x7ffffffffffffffffffffffffffffffe0673ddf29e9b5547c000000000000000int,
{
    let a = two_power_root();
    let p = field_order();
    lemma_two_power_chain_3();
    let a48 = 0x2ba42397f4ac9d44e9daa66b2a965d35bac62991133e9e7699f5ced986891e59int;
    let a49 = 0x258fa1807576e1c987fcb802a9c47dadd84fca0ec63479eb8ee20e57b9146d5aint;
    let a50 = 0x4f4f035a007d5173cd6ebdec392eda6208deb1f9d2ec9dcca10efd89271799c1int;
    let a51 = 0x1332fc126a654186ab8b22740732ec507ba7107d2654ba2873703998fcc50f4dint;
    let a52 = 0x7f581eacaca3b36c98f7fe03b5c20a5bd3efa22ac6e849d928389a0c8b1969f1int;
    let a53 = 0x16dc2656151a2da6dbb829ee3638c7f266d3de289b58c190d34686db027a207eint;
    let a54 = 0x6196781b9cc18dcdbd554dae890ccf6e0096aaee322dc9ffa5aea5cdefe2ef7bint;
    let a55 = 0x1c4995bdb2efd9ca4592442f73dc08abfe4f829330e30903ed988ee3f160d64bint;
    let a56 = 0x4e1af648e14a6a2f6fd2820f0db2099b4440b77386ef98e8a203fea18bd645faint;
    let a57 = 0x3e71ec0458895085badd80b0ad6fe0ef0741a7c971b54e6c5372e2b31f8d248bint;
    let a58 = 0x3bb0601770337888f5da57359a9517df3676ae50f0fe8b03f2fc2bb867542edbint;
    let a59 = 0x2c339e8a8872142e7420508f7430401cbfe1efb46380e30fbb9b8305415b6ab3int;
    let a60 = 0x47f72c2d94513fcf85b21da2ad30ac74a7a6e043d4d5cee280348f32c05ca465int;
    let a61 = 0x7ffffffffffffffffffffffffffffffe0673ddf29e9b5547c000000000000000int;
    lemma_square(a, 0x1000000000000, a48, a49, p);
    lemma_square(a, 0x2000000000000, a49, a50, p);
    lemma_square(a, 0x4000000000000, a50, a51, p);
    lemma_square(a, 0x8000000000000, a51, a52, p);
    lemma_square(a, 0x10000000000000, a52, a53, p);
    lemma_square(a, 0x20000000000000, a53, a54, p);
    lemma_square(a, 0x40000000000000, a54, a55, p);
    lemma_square(a, 0x80000000000000, a55, a56, p);
    lemma_square(a, 0x100000000000000, a56, a57, p);
    lemma_square(a, 0x200000000000000, a57, a58, p);
    lemma_square(a, 0x400000000000000, a58, a59, p);
    lemma_square(a, 0x800000000000000, a59, a60, p);
    lemma_square(a, 0x1000000000000000, a60, a61, p);
}

/// Repeated cubing of the three-power root: the powers with exponents up to `3^13`.
proof fn lemma_three_power_chain_1()
    ensures
        pow(three_power_root(), 0x1853d3nat) % field_order()
            == 0x6d4886168b137a511d74a7dd978cb360ecfee2e9b93f98d25254b1a36b3b2d34int,
{
    let a = three_power_root();
    let p = field_order();
    lemma_pow1(a);
    let a0 = 0x1b6292b3a6f8a32da98705fee2d66e8fe35f48642a417a72f1a4ca414adfd9e6int;
    let a1 = 0x2788da4c5b4f6748f802f5d5ca7e9bb67722ca87b139eeba95515a64c98c8bc6int;
    let a2 = 0x662d53835b9f71f2deae8a5c7cd343e30958692ae86c66e0682c03a4c9d31427int;
    let a3 = 0x742b35a001f7257e473b69899adb83e8624a8c465edeab0be8b9cde571538ffcint;
    let a4 = 0x2b4b19ea2bc9e25fa5c990f84150493445214365bd22f076935c4a00feefd52dint;
    let a5 = 0x3d6503f5168feb9323eef347eaf64c7f7e9c9ef0af97fa00b268c541759f4e1cint;
    let a6 = 0x3ac9d542c8ba8e1131af33f26c2adfbea942c4870d46644459b82607ecb8303cint;
    let a7 = 0x5c07de66ba40f968b551ee77a9cdb2ad91c136733f6c2486b60bd19c63c204bdint;
    let a8 = 0x76b4f7244b029063b3316a4c1a8d53a4b27189a07b6614f99ac694bedc979bfdint;
    let a9 = 0x7aca3d32d476631818d81d9038cd5a2b88984d6ad96cf729c7c44dcc36541426int;
    let a10 = 0x3089ff06b57ef8f0c69a3428388f1a942fa3637c997f92783318dd8ab68e8f22int;
    let a11 = 0x25b2562a39d049e8b332da5da6fc82c94b246d2a547f2f7892eb93d5b37283e4int;
    let a12 = 0x1c91c1127bbc623b22f954a8b0e2e0b04dd545d3c766aee8f451c0f1c681978bint;
    let a13 = 0x6d4886168b137a511d74a7dd978cb360ecfee2e9b93f98d25254b1a36b3b2d34int;
    lemma_cube(a, 0x1, a0, a1, p);
    lemma_cube(a, 0x3, a1, a2, p);
    lemma_cube(a, 0x9, a2, a3, p);
    lemma_cube(a, 0x1b, a3, a4, p);
    lemma_cube(a, 0x51, a4, a5, p);
    lemma_cube(a, 0xf3, a5, a6, p);
    lemma_cube(a, 0x2d9, a6, a7, p);
    lemma_cube(a, 0x88b, a7, a8, p);
    lemma_cube(a, 0x19a1, a8, a9, p);
    lemma_cube(a, 0x4ce3, a9, a10, p);
    lemma_cube(a, 0xe6a9, a10, a11, p);
    lemma_cube(a, 0x2b3fb, a11, a12, p);
    lemma_cube(a, 0x81bf1, a12, a13, p);
}

/// Repeated cubing of the three-power root: the powers with exponents up to `3^26`.
proof fn lemma_three_power_chain_2()
    ensures
        pow(three_power_root(), 0x24fd3027fe9nat) % field_order()
            == 0x434cc8e47c52c23c698742090eb6036e5a867c4ff97f9462caac4fc03bcdabe8int,
{
    let a = three_power_root();
    let p = field_order();
    lemma_three_power_chain_1();
    let a13 = 0x6d4886168b137a511d74a7dd978cb360ecfee2e9b93f98d25254b1a36b3b2d34int;
    let a14 = 0x44b23d3f902489a7fd1702ae1037e9621bd6f76077e08470bfde8baa78bc0b9cint;
    let a15 = 0x4d50e5f912e4c47e54e6c332279f2f07ee5edda22059bda6d6c47623664f80c5int;
    let a16 = 0x7a4466a94cfbbbef511013e6d8757e0d976ba3f8bf914f70c38ccbcd3386c802int;
    let a17 = 0xa4c85b49e6f25de67800591d086a4ab069df61a67ceb4e249b4cb4340470436int;
    let a18 = 0x1d38d1bd3f20ab269af0847c6101c8c35801e0634bba8db602c27428c3b84596int;
    let a19 = 0x6097df0e66ee3c50813050e514e5a0d2709f68625a7fc6bb3015dcc88b42df48int;
    let a20 = 0x7d85203eecffaa09c130b581efab711abd871bd2eabc21357df3f0110c893a74int;
    let a21 = 0x5e7d12832da9bda0bdd1e46d2f5527a183470755e8e2e6e72e44caa19d6ae133int;
    let a22 = 0x77311cacfbfb87b2617c027bc149ef3bd1e582304f3bf1fb11f7212e81a37463int;
    let a23 = 0x1d43bf414b2e91e11b658017c72aab384e504fb7cee07ab015785a3e6d563719int;
    let a24 = 0x5bbab1a7797d9e50aaa48f7c280346c8cc712efe57f21bda068c63af4ab2e4daint;
    let a25 = 0x29b4c02db5e018afd591e01936e1ff4069894cf552d67a8e1676b09c51f44c49int;
    let a26 = 0x434cc8e47c52c23c698742090eb6036e5a867c4ff97f9462caac4fc03bcdabe8int;
    lemma_cube(a, 0x1853d3, a13, a14, p);
    lemma_cube(a, 0x48fb79, a14, a15, p);
    lemma_cube(a, 0xdaf26b, a15, a16, p);
    lemma_cube(a, 0x290d741, a16, a17, p);
    lemma_cube(a, 0x7b285c3, a17, a18, p);
    lemma_cube(a, 0x17179149, a18, a19, p);
    lemma_cube(a, 0x4546b3db, a19, a20, p);
    lemma_cube(a, 0xcfd41b91, a20, a21, p);
    lemma_cube(a, 0x26f7c52b3, a21, a22, p);
    lemma_cube(a, 0x74e74f819, a22, a23, p);
    lemma_cube(a, 0x15eb5ee84b, a23, a24, p);
    lemma_cube(a, 0x41c21cb8e1, a24, a25, p);
    lemma_cube(a, 0xc546562aa3, a25, a26, p);
}

/// Repeated cubing of the three-power root: the powers with exponents up to `3^38`.
proof fn lemma_three_power_chain_3()
    ensures
        pow(three_power_root(), 0x12bf307ae81ffd59nat) % field_order()
            == 0x64674cfac2f653437b88cb1960f851748f7f72130ec4d0bb7193dc3ce3b901a7int,
{
    let a = three_power_root();
    let p = field_order();
    lemma_three_power_chain_2();
    let a26 = 0x434cc8e47c52c23c698742090eb6036e5a867c4ff97f9462caac4fc03bcdabe8int;
    let a27 = 0x4a887d5de634ed2257a0074e157a8af51465e5e1fddb72f08beb32418161b3edint;
    let a28 = 0x503244815e5829d53afe9c7640e8d2d271492433667467459dc6a94360fc4d61int;
    let a29 = 0x678603aac0c5fd15ffdd80fb6f4dd774a9267f242114a94b5b43e68274270ab4int;
    let a30 = 0x69a73cbfe315e485a02155a4541808ce998c31881c4d193ce12a9b774bf41f73int;
    let a31 = 0x5aaae1e18e3f04c11d8db2fc233b6f6d1ac77a8c22feafc54ffbc011013aeba9int;
    let a32 = 0x4cfe8657ff08cb5c74171bba12a827418b3fc49b712ad6b8082291b896b338eaint;
    let a33 = 0x664a9442f460d7d72a145b133671fe2312701050474602ec3eedf9d0c64f4d7int;
    let a34 = 0x7b4f8af8a8e34f7079faba163ee2c1fee63f6206f56fc0588345a4913e1a9fc8int;
    let a35 = 0x781b0518b2e4b6f133dcf66259685679b01d76157afe1fc9b34b7358d9e9ed58int;
    let a36 = 0x5a8ed6c2267de2ec77193af4b5acff3ea4c90f17cf48144a135dff7d211de6bint;
    let a37 = 0xf5faacee7911c9245392a9e07df6d978153c76f1e83b61723a45b99dc52bfa2int;
    let a38 = 0x64674cfac2f653437b88cb1960f851748f7f72130ec4d0bb7193dc3ce3b901a7int;
    lemma_cube(a, 0x24fd3027fe9, a26, a27, p);
    lemma_cube(a, 0x6ef79077fbb, a27, a28, p);
    lemma_cube(a, 0x14ce6b167f31, a28, a29, p);
    lemma_cube(a, 0x3e6b41437d93, a29, a30, p);
    lemma_cube(a, 0xbb41c3ca78b9, a30, a31, p);
    lemma_cube(a, 0x231c54b5f6a2b, a31, a32, p);
    lemma_cube(a, 0x6954fe21e3e81, a32, a33, p);
    lemma_cube(a, 0x13bfefa65abb83, a33, a34, p);
    lemma_cube(a, 0x3b3fcef3103289, a34, a35, p);
    lemma_cube(a, 0xb1bf6cd930979b, a35, a36, p);
    lemma_cube(a, 0x2153e468b91c6d1, a36, a37, p);
    lemma_cube(a, 0x63fbad3a2b55473, a37, a38, p);
}

/// Repeated squaring of the generator: the powers with exponents up to `2^16`.
proof fn lemma_generator_square_chain_1()
    ensures
        pow(group_generator(), 0x10000nat) % field_order()
            == 0x74e4c1c4b0ea189dc320f9fba416ac19c0d36b863ba72c778c729251157a5b29int,
{
    let a = group_generator();
    let p = field_order();
    lemma_pow1(a);
    let a0 = 0x5int;
    let a1 = 0x19int;
    let a2 = 0x271int;
    let a3 = 0x5f5e1int;
    let a4 = 0x2386f26fc1int;
    let a5 = 0x4ee2d6d415b85acef81int;
    let a6 = 0x184f03e93ff9f4daa797ed6e38ed64bf6a1f01int;
    let a7 = 0x26337f19bccdb0dac404e526ae7907a916ef89e258a41706c3df946b5c56f1faint;
    let a8 = 0x72d3272c2681cf7f4b0b817a4ccb0ea23236c0fc49493cad956d49a2b8a6f540int;
    let a9 = 0x1bf1fbbe664cf35e20beccd64e194e6bbc54c01af525104c087031497e35c51aint;
    let a10 = 0x364dacabf9b3df41683c80ee125bc3dcc1674500efbb1af318d6f096d6b6242bint;
    let a11 = 0x6b0c75fc4490e235d5a50a3a739638147abaf25c6b999af6e9beb7c146398fd5int;
    let a12 = 0x5ff715c9d4e6572c76cfba35f12f1304ce376d2153b5e51d8d4ecd292fe794cbint;
    let a13 = 0x29511c48cb132ca6c7214ef46a977bfb08856169d373d168b62c4d8b8f3f03d9int;
    let a14 = 0x47e159cc0962ab4845d6507d986035a9bee30e06a855cf9affb602d03e24c29fint;
    let a15 = 0x72499f3ff9bf52aa94609c21cd516fe746f82fd9f2e93add70fe216b33a854fcint;
    let a16 = 0x74e4c1c4b0ea189dc320f9fba416ac19c0d36b863ba72c778c729251157a5b29int;
    lemma_square(a, 0x1, a0, a1, p);
    lemma_square(a, 0x2, a1, a2, p);
    lemma_square(a, 0x4, a2, a3, p);
    lemma_square(a, 0x8, a3, a4, p);
    lemma_square(a, 0x10, a4, a5, p);
    lemma_square(a, 0x20, a5, a6, p);
    lemma_square(a, 0x40, a6, a7, p);
    lemma_square(a, 0x80, a7, a8, p);
    lemma_square(a, 0x100, a8, a9, p);
    lemma_square(a, 0x200, a9, a10, p);
    lemma_square(a, 0x400, a10, a11, p);
    lemma_square(a, 0x800, a11, a12, p);
    lemma_square(a, 0x1000, a12, a13, p);
    lemma_square(a, 0x2000, a13, a14, p);
    lemma_square(a, 0x4000, a14, a15, p);
    lemma_square(a, 0x8000, a15, a16, p);
}

/// Repeated squaring of the generator: the powers with exponents up to `2^32`.
proof fn lemma_generator_square_chain_2()
    ensures
        pow(group_generator(), 0x100000000nat) % field_order()
            == 0x9d4e4bd66bc65498bfbd37da4fcf3e85a9817abeeac9ee99472be0e25b946eaint,
{
    let a = group_generator();
    let p = field_order();
    lemma_generator_square_chain_1();
    let a16 = 0x74e4c1c4b0ea189dc320f9fba416ac19c0d36b863ba72c778c729251157a5b29int;
    let a17 = 0x52dd4daa8090e8870a7c015644f8e4160c15e2302dd3469abe7ea71eba02363cint;
    let a18 = 0x726460853eeedc2aa4ba548ae7b1373518a388e0f019cd4da6606d522b77f3a7int;
    let a19 = 0x55b966ae5ef6e0eb973e66713dd019e7e94be574bb08ba1483e65ca6b358e93eint;
    let a20 = 0x49697ec74d59226d2f42b9ae2e0c87a10db65e4c7335e8f40df0667142d79caaint;
    let a21 = 0x4d26ea4d48723df73b22f5c9b6bb7058c4411ea5fcf2b8e9ff735b712e7751beint;
    let a22 = 0x19b1830dc7607273eb5681c7b26ced66af3a12dba14648e5a9562ebb653e1626int;
    let a23 = 0x7178e489859b6833af82705a44009b7e23e2f088d5cfc4fd8e03798ff307f971int;
    let a24 = 0x8be0b983c0abc773e0343cae003137d790edfdb91ee46b69d2543d3d9c6b4aaint;
    let a25 = 0x304de0edefdc34e042e939deb2b153a1b25da06adc1e6448935a84bb3e57f492int;
    let a26 = 0x334808087440733352919eee6ef487b47ac236e2cdb862e19d130e1f3ec84222int;
    let a27 = 0x4d4283c0301316bd56352160ed0437b19a0badd7d289bca76705b1016f022ebint;
    let a28 = 0x296d4089d78671cdacb22b438c7ce01fbf728ba2d1c7646b6d4801faa5538ddbint;
    let a29 = 0x15f92398f25f1a19e4822046fa7f83bee1a8205509842f570fa4ce492104c236int;
    let a30 = 0x97ffd39faa311ec0a9f4c697c8c86bc39068475ecf8b0d66d594ad5d55a0ec1int;
    let a31 = 0x30286760a189da1f283452993da6123e65cc88487e09ce51c1a59a666879c546int;
    let a32 = 0x9d4e4bd66bc65498bfbd37da4fcf3e85a9817abeeac9ee99472be0e25b946eaint;
    lemma_square(a, 0x10000, a16, a17, p);
    lemma_square(a, 0x20000, a17, a18, p);
    lemma_square(a, 0x40000, a18, a19, p);
    lemma_square(a, 0x80000, a19, a20, p);
    lemma_square(a, 0x100000, a20, a21, p);
    lemma_square(a, 0x200000, a21, a22, p);
    lemma_square(a, 0x400000, a22, a23, p);
    lemma_square(a, 0x800000, a23, a24, p);
    lemma_square(a, 0x1000000, a24, a25, p);
    lemma_square(a, 0x2000000, a25, a26, p);
    lemma_square(a, 0x4000000, a26, a27, p);
    lemma_square(a, 0x8000000, a27, a28, p);
    lemma_square(a, 0x10000000, a28, a29, p);
    lemma_square(a, 0x20000000, a29, a30, p);
    lemma_square(a, 0x40000000, a30, a31, p);
    lemma_square(a, 0x80000000, a31, a32, p);
}

/// Repeated squaring of the generator: the powers with exponents up to `2^48`.
proof fn lemma_generator_square_chain_3()
    ensures
        pow(group_generator(), 0x1000000000000nat) % field_order()
            == 0x4dbd61935ce747475b18bad260f37b13437a80f098c85a1dcc1bed867ab72eedint,
{
    let a = group_generator();
    let p = field_order();
    lemma_generator_square_chain_2();
    let a32 = 0x9d4e4bd66bc65498bfbd37da4fcf3e85a9817abeeac9ee99472be0e25b946eaint;
    let a33 = 0x22e435f2ff7646f72c4e7f6f3fd6bf37754da7d3802ecf6776da1b37f88f3c67int;
    let a34 = 0x65409db3767f0a23bb58cba3005a85ea7c5b78cb773d50610cc250ef4e96d405int;
    let a35 = 0x20d370b1a0e59b2a5ef17c11fffaf92112e4bebe0410e3c213c6c9732c82a574int;
    let a36 = 0x7be89bcb21722c50f0df3dc8cde874154f2903fd0466cd8abc2da468e99418d0int;
    let a37 = 0x6985a9e2514a16ba52abfbe7fdddc3beb08a9436c86508bb8006066fcda2515eint;
    let a38 = 0x2cd1804225c496659e75754c26687e1a212348931b6bb2aaf20f9817ac45f44cint;
    let a39 = 0x78998ee377fe9e9308001d9b06077d95ff4810a3ce80e7b5a2f38c60e7e0b31dint;
    let a40 = 0x56115820894858947357d26cfb90ca3dd26ea98081f56c9c7846b60cf731e79bint;
    let a41 = 0x538105ec8f0a6515251b58a7791b72156006451ae58fe0424b27f9f998b515c2int;
    let a42 = 0x2374c2c23d78b2dd649cde5185f9e9cb9dbc9f061497859bd00ab4ababafd085int;
    let a43 = 0x75ba11bebde52d29ebee20f824374570588083b509fafce28b51af166261dc98int;
    let a44 = 0x608736fcf80cbd5d810e4c5c884a4e9f502190dfd36738f1867a8ef675509c5eint;
    let a45 = 0x39d6cc450cb10ccbb76cc47df985b4b296200d0b2a106a239aa5854e0ae1e248int;
    let a46 = 0x58799fafb1e4713fa18f8110131f91bbc2bd98983786d27bd00bb0c53d4f8febint;
    let a47 = 0x4a216b5340f54f5f232e3c664cd9bfb6412d91949bdb44af04e7d3020b8bfd1aint;
    let a48 = 0x4dbd61935ce747475b18bad260f37b13437a80f098c85a1dcc1bed867ab72eedint;
    lemma_square(a, 0x100000000, a32, a33, p);
    lemma_square(a, 0x200000000, a33, a34, p);
    lemma_square(a, 0x400000000, a34, a35, p);
    lemma_square(a, 0x800000000, a35, a36, p);
    lemma_square(a, 0x1000000000, a36, a37, p);
    lemma_square(a, 0x2000000000, a37, a38, p);
    lemma_square(a, 0x4000000000, a38, a39, p);
    lemma_square(a, 0x8000000000, a39, a40, p);
    lemma_square(a, 0x10000000000, a40, a41, p);
    lemma_square(a, 0x20000000000, a41, a42, p);
    lemma_square(a, 0x40000000000, a42, a43, p);
    lemma_square(a, 0x80000000000, a43, a44, p);
    lemma_square(a, 0x100000000000, a44, a45, p);
    lemma_square(a, 0x200000000000, a45, a46, p);
    lemma_square(a, 0x400000000000, a46, a47, p);
    lemma_square(a, 0x800000000000, a47, a48, p);
}

/// Repeated squaring of the generator: the powers with exponents up to `2^62`.
proof fn lemma_generator_square_chain_4()
    ensures
        pow(group_generator(), 0x4000000000000000nat) % field_order()
            == 0x232680e97f4b6251c95edefd145053d6dea23905b503a1002987caddeb54cdceint,
{
    let a = group_generator();
    let p = field_order();
    lemma_generator_square_chain_3();
    let a48 = 0x4dbd61935ce747475b18bad260f37b13437a80f098c85a1dcc1bed867ab72eedint;
    let a49 = 0x148fa60cfb3701a24404f53aa78412d81124f599b68a0aceee1db9563bd9538aint;
    let a50 = 0x24e7c2751ba2ff6a1d2f06dae41914b91cea2c395cd076a280b8c23c13eb1369int;
    let a51 = 0x6bcdec428b647310e820b77a3c6861a003b8b83c9456f2bfd4fadf003d591a8fint;
    let a52 = 0x69f7dc65f1f166a8b562ee20a6ae207f98ecec54091924def2b8f5140ffdf74dint;
    let a53 = 0x22186191b0ec6ae471d9531d2c23765bc74b3c59fcdb493cd550e3e6f4b8d7d1int;
    let a54 = 0x6022e1d580f4b6d7ad85722223b2472f0f1970751ab7876299ec1fd438b054aeint;
    let a55 = 0x7f4374e6d7253393d0a7b5b7734eb5915792982ae5d8feb956b18cecc519bf63int;
    let a56 = 0x77a591f92ffcc2a561801439ea869aa601ebd577d0b1e7a9f33222ccb2513f92int;
    let a57 = 0x416f400500d1c32cc7575657511a4bd3a58fe1038b136134eb51917e26fde586int;
    let a58 = 0x4a2cc634f1aa80838d555e93d361bee23bbecd4e67b4736041da95e3709a5b47int;
    let a59 = 0x9acbe946323c01846f148a5aac36cc8bfc00b23ef8e946c18a1eda06b799407int;
    let a60 = 0x77f96e840ade9512a064b16f4abe339c75db20e33093fdc47ae4fc9470099b64int;
    let a61 = 0x429e5f2de0a8ec56479971b1fc08b602ba43df8363f561807bc0a4b71790a373int;
    let a62 = 0x232680e97f4b6251c95edefd145053d6dea23905b503a1002987caddeb54cdceint;
    lemma_square(a, 0x1000000000000, a48, a49, p);
    lemma_square(a, 0x2000000000000, a49, a50, p);
    lemma_square(a, 0x4000000000000, a50, a51, p);
    lemma_square(a, 0x8000000000000, a51, a52, p);
    lemma_square(a, 0x10000000000000, a52, a53, p);
    lemma_square(a, 0x20000000000000, a53, a54, p);
    lemma_square(a, 0x40000000000000, a54, a55, p);
    lemma_square(a, 0x80000000000000, a55, a56, p);
    lemma_square(a, 0x100000000000000, a56, a57, p);
    lemma_square(a, 0x200000000000000, a57, a58, p);
    lemma_square(a, 0x400000000000000, a58, a59, p);
    lemma_square(a, 0x800000000000000, a59, a60, p);
    lemma_square(a, 0x1000000000000000, a60, a61, p);
    lemma_square(a, 0x2000000000000000, a61, a62, p);
}

/// Repeated cubing of the generator: the powers with exponents up to `3^13`.
proof fn lemma_generator_cube_chain_1()
    ensures
        pow(group_generator(), 0x1853d3nat) % field_order()
            == 0xe8363f0ad251f0e0130024627a94e324feb8eb1a9e91ec139d88b60e3ab7028int,
{
    let a = group_generator();
    let p = field_order();
    lemma_pow1(a);
    let a0 = 0x5int;
    let a1 = 0x7dint;
    let a2 = 0x1dcd65int;
    let a3 = 0x6765c793fa10079dint;
    let a4 = 0x10de1593369d1b5fad34051767bdae347bf3f22ac4f809c5int;
    let a5 = 0x4fe203203374e29fd74377991c85571dfb3ac40d6191f83b5ff3555b87713ef0int;
    let a6 = 0x6f2450a19a27bf1562a6e909cceaf046875c3da70527f89966c153d79c422919int;
    let a7 = 0x70ac1a1d4c3736b287ee599a0ffa9309c47b80dc3f92f02ba1b11a65067d5317int;
    let a8 = 0x21c6c8126f33f86884167a8a1ab2971b645c87d2331c981b1547342cf9973c32int;
    let a9 = 0xa2f4038e9ff5f82632971a64dcb22d3e3b2470dae485f86c47cb4609b67b540int;
    let a10 = 0x3f6744623979c74688bf80881fd28fbb31350ff61a30d986363c28b84792b719int;
    let a11 = 0x688900f06bb5b2e6bb87725492d189bc72fbc0bd53055f35b4b2c1c86af9da79int;
    let a12 = 0x502170e91bbbcabea17411cd76dd36698ed650c3e8cbea54c919a1966cf98309int;
    let a13 = 0xe8363f0ad251f0e0130024627a94e324feb8eb1a9e91ec139d88b60e3ab7028int;
    lemma_cube(a, 0x1, a0, a1, p);
    lemma_cube(a, 0x3, a1, a2, p);
    lemma_cube(a, 0x9, a2, a3, p);
    lemma_cube(a, 0x1b, a3, a4, p);
    lemma_cube(a, 0x51, a4, a5, p);
    lemma_cube(a, 0xf3, a5, a6, p);
    lemma_cube(a, 0x2d9, a6, a7, p);
    lemma_cube(a, 0x88b, a7, a8, p);
    lemma_cube(a, 0x19a1, a8, a9, p);
    lemma_cube(a, 0x4ce3, a9, a10, p);
    lemma_cube(a, 0xe6a9, a10, a11, p);
    lemma_cube(a, 0x2b3fb, a11, a12, p);
    lemma_cube(a, 0x81bf1, a12, a13, p);
}

/// Repeated cubing of the generator: the powers with exponents up to `3^26`.
proof fn lemma_generator_cube_chain_2()
    ensures
        pow(group_generator(), 0x24fd3027fe9nat) % field_order()
            == 0xd4250ae84fc676c9afbc0bf321198a207412fdf5f1654345d1039dd91c2c5dbint,
{
    let a = group_generator();
    let p = field_order();
    lemma_generator_cube_chain_1();
    let a13 = 0xe8363f0ad251f0e0130024627a94e324feb8eb1a9e91ec139d88b60e3ab7028int;
    let a14 = 0x55b61981d6decc1eba8a8ca01d8617985d77220afa6ad3b7a1fbb27b081cb2b8int;
    let a15 = 0x30b2f4639894ab17a751d583a3d9c04939f73e11a135bd36e06150a573195d5cint;
    let a16 = 0x5bbd05c4d1309352e7aa820189ad5a718774bf2308e3033520b1d87b67dce080int;
    let a17 = 0x2b072adfd0662fa493fbd291a33b351242516d544a27c61e589a746ecdd69011int;
    let a18 = 0x1196353d26dbbe63e8994aa3ac4ca3a2df73eebfde47b6ca0768bb81a50df74cint;
    let a19 = 0x4f483dc417aa692e575b0a5e91063cc5daec0ee571ab956d29c4382897008a19int;
    let a20 = 0x43ec462595b3053a6a5f1c4097482b5e84444567e7e02e75332f9c53866697d7int;
    let a21 = 0x7f29994d354605a8967b2b2454274716000eac3ad470dec459f924fb707187f8int;
    let a22 = 0x68c4f9da7aa62ae44817e78778100519c62a11b1bcae331084a13ccebd72b46dint;
    let a23 = 0x443ca10d3983f49cacdcef8cce7b91ace2c6a56378f757ac6bd2ca5487b4cca3int;
    let a24 = 0x69180f94993d305d1e2f6ed5b2290d99695967e7223b100bb78beba0ab4344f4int;
    let a25 = 0x7eaeb9c687209bb205acc86e1c74c20a7b4527b417c502bf398d21edaf89ff50int;
    let a26 = 0xd4250ae84fc676c9afbc0bf321198a207412fdf5f1654345d1039dd91c2c5dbint;
    lemma_cube(a, 0x1853d3, a13, a14, p);
    lemma_cube(a, 0x48fb79, a14, a15, p);
    lemma_cube(a, 0xdaf26b, a15, a16, p);
    lemma_cube(a, 0x290d741, a16, a17, p);
    lemma_cube(a, 0x7b285c3, a17, a18, p);
    lemma_cube(a, 0x17179149, a18, a19, p);
    lemma_cube(a, 0x4546b3db, a19, a20, p);
    lemma_cube(a, 0xcfd41b91, a20, a21, p);
    lemma_cube(a, 0x26f7c52b3, a21, a22, p);
    lemma_cube(a, 0x74e74f819, a22, a23, p);
    lemma_cube(a, 0x15eb5ee84b, a23, a24, p);
    lemma_cube(a, 0x41c21cb8e1, a24, a25, p);
    lemma_cube(a, 0xc546562aa3, a25, a26, p);
}

/// Repeated cubing of the generator: the powers with exponents up to `3^39`.
proof fn lemma_generator_cube_chain_3()
    ensures
        pow(group_generator(), 0x383d9170b85ff80bnat) % field_order()
            == 0x69ad4e8e6a380e53e7b74f74c66e7ec45503f37645d561006459ea89073f7472int,
{
    let a = group_generator();
    let p = field_order();
    lemma_generator_cube_chain_2();
    let a26 = 0xd4250ae84fc676c9afbc0bf321198a207412fdf5f1654345d1039dd91c2c5dbint;
    let a27 = 0xd17111276b4680ab4fae4e5bc7e6d9af202e11f4a03c3a1397faffdc0dc3560int;
    let a28 = 0xf471c7226a9425cfa1ed8f863a23245a028427ab8586ae9811144b5f5495873int;
    let a29 = 0x618de261ed70e7a41b84094427d2246760a436040e84d3be0fa006a71275a98aint;
    let a30 = 0x64e29094dcf07d1d1461d0d134857a4db8bad08da7645f4169c58112a02285d4int;
    let a31 = 0x397e7a1d43dda52c2e087ab3b71e511b8564ca425a16352cd7837b7894a87bbbint;
    let a32 = 0x1ebea3942b079ed1b53aa819a15724fce55fe1726dff7ef241c5afbdc52506b8int;
    let a33 = 0x3829c4d90434d5e006d2316225bfc5753ff1d43c8b975b6152c735c77c777c96int;
    let a34 = 0x1ed56f41aa473e06dfc0de1f3a2b560de0a83b1ed19d251319beefa7e9db67d4int;
    let a35 = 0x315ecce253b0fd013ea6d6fb46278ab00202e59bbbca36162d55df9d67a81a9cint;
    let a36 = 0x1d4b2b99677afac37fd5e6ecaf9d494519f3a13464de0a67ee6e4bffad1e0c6int;
    let a37 = 0x30f036d326a43ef36c55a5bb0dbb494ceea3cf880ab6639a83fd6cbafe05c38aint;
    let a38 = 0x483700fa39dd595934ea51279d87b376903ada2690f48a4c932e009c334b2152int;
    let a39 = 0x69ad4e8e6a380e53e7b74f74c66e7ec45503f37645d561006459ea89073f7472int;
    lemma_cube(a, 0x24fd3027fe9, a26, a27, p);
    lemma_cube(a, 0x6ef79077fbb, a27, a28, p);
    lemma_cube(a, 0x14ce6b167f31, a28, a29, p);
    lemma_cube(a, 0x3e6b41437d93, a29, a30, p);
    lemma_cube(a, 0xbb41c3ca78b9, a30, a31, p);
    lemma_cube(a, 0x231c54b5f6a2b, a31, a32, p);
    lemma_cube(a, 0x6954fe21e3e81, a32, a33, p);
    lemma_cube(a, 0x13bfefa65abb83, a33, a34, p);
    lemma_cube(a, 0x3b3fcef3103289, a34, a35, p);
    lemma_cube(a, 0xb1bf6cd930979b, a35, a36, p);
    lemma_cube(a, 0x2153e468b91c6d1, a36, a37, p);
    lemma_cube(a, 0x63fbad3a2b55473, a37, a38, p);
    lemma_cube(a, 0x12bf307ae81ffd59, a38, a39, p);
}

/// The powers of two and three that are the orders of the roots.
pub proof fn lemma_orders()
    ensures
        pow(2, 61) == 0x2000000000000000,
        pow(2, 62) == 0x4000000000000000,
        pow(3, 38) == 0x12bf307ae81ffd59,
        pow(3, 39) == 0x383d9170b85ff80b,
{
    lemma2_to64_rest();
    lemma_pow2(61);
    lemma_pow2(62);
    assert(pow(3, 13) == 0x1853d3) by {
        reveal_with_fuel(pow, 14);
    }
    assert(pow(3, 12) == 0x81bf1) by {
        reveal_with_fuel(pow, 13);
    }
    lemma_pow_adds(3, 13, 13);
    lemma_pow_adds(3, 26, 12);
    lemma_pow_adds(3, 26, 13);
}

/// The two-power root, raised to half its order and to its order.
proof fn lemma_two_power_root()
    ensures
        pow(two_power_root(), pow(2, 61) as nat) % field_order() == field_order() - 1,
        pow(two_power_root(), pow(2, 62) as nat) % field_order() == 1,
{
    lemma_orders();
    lemma_two_power_chain_4();
    lemma_square(
        two_power_root(),
        0x2000000000000000,
        0x7ffffffffffffffffffffffffffffffe0673ddf29e9b5547c000000000000000int,
        1,
        field_order(),
    );
}

/// The three-power root, raised to a third of its order and to its order.
proof fn lemma_three_power_root()
    ensures
        pow(three_power_root(), pow(3, 38) as nat) % field_order() == third_root(),
        pow(three_power_root(), pow(3, 39) as nat) % field_order() == 1,
{
    lemma_orders();
    lemma_three_power_chain_3();
    lemma_cube(
        three_power_root(),
        0x12bf307ae81ffd59,
        0x64674cfac2f653437b88cb1960f851748f7f72130ec4d0bb7193dc3ce3b901a7int,
        1,
        field_order(),
    );
}

/// The generator lies in neither of the subgroups.
pub proof fn lemma_generator()
    ensures
        pow(group_generator(), pow(2, 62) as nat) % field_order() != 1,
        pow(group_generator(), pow(3, 39) as nat) % field_order() != 1,
{
    lemma_orders();
    lemma_generator_square_chain_4();
    lemma_generator_cube_chain_3();
}

/// A third root of unity.
spec fn third_root() -> int {
    0x64674cfac2f653437b88cb1960f851748f7f72130ec4d0bb7193dc3ce3b901a7int
}

/// A root of unity whose order is 31.
spec fn small_root() -> int {
    0x368788bf38c11b3d21e469312ad249c0eaee9130a4f07cc270bee5a96d08dba8int
}


/// The small root, raised to its order.
proof fn lemma_small_root()
    ensures
        pow(small_root(), 31) % field_order() == 1,
{
    let c = small_root();
    let p = field_order();
    let c1 = 0x368788bf38c11b3d21e469312ad249c0eaee9130a4f07cc270bee5a96d08dba8int;
    let c2 = 0x3657d71dcc0c26b0513e2ebaf7591f4216afc3199edd7bce2dbd0593a652f375int;
    let c3 = 0x1776f930f2807b0fb61ed92bb63bbc7f1ac72e6c01f9eeaffef26d16831b88eaint;
    let c6 = 0x1298fc650636bf3c83ca095697672fe7c3fc2547a3a395a6bbbfaebf141874feint;
    let c7 = 0x1dbc3f14652f7aa7f0800d7ef97b809a247ba223fc0b7f058db6a95f9fc61aebint;
    let c14 = 0x4418f4dd06835397bffa4ace225591265e74fe91c12c678eed6a35424cdf90a5int;
    let c15 = 0x7df799eeaf93e5849a213190a5aa26bf81fda8b6472a1f4bb55803fe09fb791int;
    let c30 = 0x1220eb8ec50f86a10568925ba184a4128c20b66e73ab9645184970c19292d1eeint;
    lemma_pow1(c);
    lemma_square(c, 1, c1, c2, p);
    lemma_times_base(c, 2, c2, c3, p);
    lemma_square(c, 3, c3, c6, p);
    lemma_times_base(c, 6, c6, c7, p);
    lemma_square(c, 7, c7, c14, p);
    lemma_times_base(c, 14, c14, c15, p);
    lemma_square(c, 15, c15, c30, p);
    lemma_times_base(c, 30, c30, 0x1int, p);
}

/// One more factor in a power.
proof fn lemma_times_base(a: int, e: nat, b: int, c: int, p: int)
    requires
        p > 0,
        pow(a, e) % p == b % p,
        (b * a) % p == c,
    ensures
        pow(a, e + 1) % p == c,
{
    lemma_pow_adds(a, e, 1);
    lemma_pow1(a);
    lemma_mul_congr(pow(a, e), b, a, a, p);
}

/// Two, three and 31 are prime.
proof fn lemma_small_primes()
    ensures
        is_prime(2),
        is_prime(3),
        is_prime(31),
{
    assert forall|d: int| 1 < d < 31 implies #[trigger] (31int % d) != 0 by {
        if 31int % d == 0 {
            lemma_divisible(31, d);
            let e = 31int / d;
            assert(d * e != 31) by (nonlinear_arith)
                requires
                    1 < d < 31,
            ;
        }
    }
}

/// The roots keep their orders modulo every divisor of the field's order.
proof fn lemma_orders_modulo(d: int)
    requires
        d > 1,
        field_order() % d == 0,
    ensures
        primitive_root(two_power_root(), pow(2, 62), d),
        primitive_root(three_power_root(), pow(3, 39), d),
        primitive_root(small_root(), 31, d),
{
    let p = field_order();
    lemma_small_primes();
    lemma_small_mod(1, d as nat);
    lemma_small_mod(1, p as nat);
    lemma_two_power_root();
    lemma_three_power_root();
    lemma_small_root();
    let u = pow(two_power_root(), pow(2, 61) as nat);
    lemma_congr_divisor(pow(two_power_root(), pow(2, 62) as nat), 1, p, d);
    lemma_small_mod((p - 1) as nat, p as nat);
    lemma_congr_divisor(u, p - 1, p, d);
    lemma_not_one(
        p - 1,
        0x3fffffffffffffffffffffffffffffff0339eef94f4daaa3e000000000000000int,
        p,
        d,
    );
    lemma_prime_power_order(two_power_root(), 2, 62, d);
    let v = pow(three_power_root(), pow(3, 38) as nat);
    lemma_congr_divisor(pow(three_power_root(), pow(3, 39) as nat), 1, p, d);
    lemma_small_mod(third_root() as nat, p as nat);
    lemma_congr_divisor(v, third_root(), p, d);
    lemma_not_one(
        third_root(),
        0x33dd9101bf0339942c27bc4cdfad3a2d29cd6df0ba25f346af796141096cff73int,
        p,
        d,
    );
    lemma_prime_power_order(three_power_root(), 3, 39, d);
    lemma_congr_divisor(pow(small_root(), 31), 1, p, d);
    lemma_not_one(
        small_root(),
        0x76a7f25471669ff664439e3eb52a57a449e84f8f1aa54ec16de5ad8e7c95df54int,
        p,
        d,
    );
    lemma_pow1(31);
    lemma_pow0(31);
    lemma_pow1(small_root());
    lemma_prime_power_order(small_root(), 31, 1, d);
}

/// The orders of the roots have no common factors.
proof fn lemma_orders_coprime()
    ensures
        coprime(pow(2, 62), pow(3, 39)),
        coprime(pow(2, 62) * pow(3, 39), 31),
{
    let m = pow(2, 62);
    let n = pow(3, 39);
    lemma_small_primes();
    lemma_pow_positive(2, 62);
    lemma_pow_positive(3, 39);
    lemma_pow_nonzero(3, 39, 2);
    lemma_pow_nonzero(2, 62, 3);
    lemma_pow_nonzero(2, 62, 31);
    lemma_pow_nonzero(3, 39, 31);
    assert forall|a: int| #[trigger] (a * n) % m == 0 implies a % m == 0 by {
        lemma_prime_power_divides(2, 62, a, n);
    }
    assert forall|a: int| #[trigger] (a * m) % n == 0 implies a % n == 0 by {
        lemma_prime_power_divides(3, 39, a, m);
    }
    let o = m * n;
    assert(o > 0) by (nonlinear_arith)
        requires
            o == m * n,
            m > 0,
            n > 0,
    ;
    assert forall|a: int| #[trigger] (a * 31) % o == 0 implies a % o == 0 by {
        lemma_divisible(a * 31, o);
        let k = (a * 31) / o;
        assert(a * 31 == m * (n * k)) by (nonlinear_arith)
            requires
                a * 31 == o * k,
                o == m * n,
        ;
        lemma_multiple(n * k, m);
        lemma_prime_power_divides(2, 62, a, 31);
        lemma_divisible(a, m);
        let b = a / m;
        assert(b * 31 == n * k) by (nonlinear_arith)
            requires
                a * 31 == m * (n * k),
                a == m * b,
                m > 0,
        ;
        lemma_multiple(k, n);
        lemma_prime_power_divides(3, 39, b, 31);
        lemma_divisible(b, n);
        let c = b / n;
        assert(a == o * c) by (nonlinear_arith)
            requires
                a == m * b,
                b == n * c,
                o == m * n,
        ;
        lemma_multiple(c, o);
    }
    assert forall|a: int| #[trigger] (a * o) % 31 == 0 implies a % 31 == 0 by {
        lemma_no_zero_divisors(a, o, 31);
        if o % 31 == 0 {
            lemma_no_zero_divisors(m, n, 31);
        }
    }
}

/// The order of the field is prime: modulo a divisor up to its root there would be a number with
/// an order that is larger than the divisor.
pub proof fn lemma_field_order_prime()
    ensures
        is_prime(field_order()),
{
    let p = field_order();
    assert forall|d: int| 1 < d && d * d <= p implies #[trigger] (p % d) != 0 by {
        if p % d == 0 {
            let m = pow(2, 62);
            let n = pow(3, 39);
            lemma_orders_modulo(d);
            lemma_orders_coprime();
            lemma_product_order(two_power_root(), three_power_root(), m, n, d);
            lemma_product_order(
                two_power_root() * three_power_root(),
                small_root(),
                m * n,
                31,
                d,
            );
            lemma_order_bound(
                two_power_root() * three_power_root() * small_root(),
                m * n * 31,
                d,
            );
            lemma_orders();
            let o = 0x1b3dd272994e7c2554000000000000000int;
            assert(m * n * 31 == o);
            assert(d * d >= o * o) by (nonlinear_arith)
                requires
                    d >= o,
                    o > 0,
            ;
        }
    }
    lemma_prime_if(p);
}

/// The roots have the orders that their names say.
pub proof fn lemma_root_orders()
    ensures
        primitive_root(two_power_root(), pow(2, 62), field_order()),
        primitive_root(three_power_root(), pow(3, 39), field_order()),
{
    lemma_multiple(1, field_order());
    lemma_orders_modulo(field_order());
}

} // verus!
