use lib::units::storage::tree::{Chunk, TokenTree, TreeNode};

fn chunk(index: usize) -> Chunk {
    Chunk { token: (index % 200) as u8, span: index % 5 + 1, string: format!("t{index}") }
}

fn chunks(range: std::ops::Range<usize>) -> Vec<Chunk> {
    range.map(chunk).collect()
}

fn strings(tree: TokenTree) -> Vec<String> {
    tree.into_chunks().into_iter().map(|chunk| chunk.string).collect()
}

fn names(range: std::ops::Range<usize>) -> Vec<String> {
    range.map(|index| format!("t{index}")).collect()
}

#[test]
fn bulk_load_keeps_chunks_in_order() {
    assert_eq!(TokenTree::new().height(), 0);
    assert!(strings(TokenTree::from_chunks(Vec::new())).is_empty());
    let tree = TokenTree::from_chunks(chunks(0..11));
    assert_eq!(tree.height(), 1);
    assert_eq!(strings(tree), names(0..11));
    let tree = TokenTree::from_chunks(chunks(0..20));
    assert_eq!(tree.height(), 2);
    assert_eq!(strings(tree), names(0..20));
    let tree = TokenTree::from_chunks(chunks(0..40));
    assert_eq!(tree.height(), 2);
    assert_eq!(strings(tree), names(0..40));
    let tree = TokenTree::from_chunks(chunks(0..3000));
    assert_eq!(tree.height(), 5);
    assert_eq!(strings(tree), names(0..3000));
}

#[test]
fn split_and_join_round_trip() {
    let mut tree = TokenTree::from_chunks(chunks(0..500));
    let right = tree.split(123);
    assert_eq!(strings(TokenTree::from_chunks(chunks(0..123))), names(0..123));
    let mut left = tree;
    left.join(right);
    assert_eq!(strings(left), names(0..500));
    let mut tree = TokenTree::from_chunks(chunks(0..10));
    let right = tree.split(10);
    assert_eq!(strings(right), Vec::<String>::new());
    assert_eq!(strings(tree), names(0..10));
}

#[test]
fn write_replaces_a_span_of_chunks() {
    let mut tree = TokenTree::from_chunks(chunks(0..100));
    tree.write(10, 90, chunks(1000..1003));
    let mut expected = names(0..10);
    expected.extend(names(1000..1003));
    expected.extend(names(90..100));
    assert_eq!(strings(tree), expected);
}

#[test]
fn lookup_finds_the_chunk_of_a_site() {
    let tree = TokenTree::from_chunks(chunks(0..40));
    assert_eq!(tree.lookup(0), Some((0, 0)));
    assert_eq!(tree.lookup(1), Some((1, 0)));
    assert_eq!(tree.lookup(2), Some((1, 1)));
    assert_eq!(tree.lookup(3), Some((2, 0)));
    assert_eq!(tree.lookup(15), Some((5, 0)));
    assert_eq!(tree.lookup(119), Some((39, 4)));
    assert_eq!(tree.lookup(120), None);
    assert_eq!(TokenTree::new().lookup(0), None);
    let big = TokenTree::from_chunks(chunks(0..3000));
    assert_eq!(big.lookup(3000), Some((1000, 0)));
    assert_eq!(big.lookup(3002), Some((1001, 1)));
}

fn gen(range: std::ops::RangeInclusive<usize>) -> TokenTree {
    TokenTree::from_chunks(
        range
            .map(|index| Chunk { token: (index % 256) as u8, span: 1, string: index.to_string() })
            .collect(),
    )
}

fn node_length(node: &TreeNode) -> usize {
    match node {
        TreeNode::Page(chunks) => chunks.iter().map(|chunk| chunk.span).sum(),
        TreeNode::Branch(children) => children.iter().map(node_length).sum(),
    }
}

fn page_inline(chunks: &[Chunk]) -> String {
    let strings: Vec<&str> = chunks.iter().map(|chunk| chunk.string.as_str()).collect();
    format!("[{}]", strings.join(", "))
}

fn branch_display(children: &[TreeNode], depth: usize) -> String {
    let indent = "    ".repeat(depth + 1);
    let mut out = String::from("{\n");
    for child in children {
        let inner = match child {
            TreeNode::Page(chunks) => page_inline(chunks),
            TreeNode::Branch(grand) => branch_display(grand, depth + 1),
        };
        out.push_str(&format!("{}{}: {},\n", indent, node_length(child), inner));
    }
    out.push_str(&"    ".repeat(depth));
    out.push('}');
    out
}

fn tree_display(tree: &TokenTree) -> String {
    let length = tree.root().map(node_length).unwrap_or(0);
    let mut out = format!("height: {}, length: {}", tree.height(), length);
    match tree.root() {
        None => {},
        Some(TreeNode::Page(chunks)) => {
            out.push_str(", [\n");
            for chunk in chunks {
                out.push_str(&format!("    {},\n", chunk.string));
            }
            out.push(']');
        },
        Some(TreeNode::Branch(children)) => {
            out.push_str(", ");
            out.push_str(&branch_display(children, 0));
        },
    }
    out
}

#[test]
fn test_bulk_load_1() {
    let tree = TokenTree::new();
    assert_eq!(tree_display(&tree), r#"height: 0, length: 0"#,);
}

#[test]
fn test_bulk_load_2() {
    let tree = gen(1..=1);
    assert_eq!(
        tree_display(&tree),
        r#"height: 1, length: 1, [
    1,
]"#,
    );
}

#[test]
fn test_bulk_load_3() {
    let tree = gen(1..=20);
    assert_eq!(
        tree_display(&tree).as_str(),
        r#"height: 2, length: 20, {
    6: [1, 2, 3, 4, 5, 6],
    7: [7, 8, 9, 10, 11, 12, 13],
    7: [14, 15, 16, 17, 18, 19, 20],
}"#
    );
}

#[test]
fn test_bulk_load_4() {
    let tree = gen(1..=300);
    assert_eq!(
        tree_display(&tree).as_str(),
        r#"height: 3, length: 300, {
    36: {
        6: [1, 2, 3, 4, 5, 6],
        6: [7, 8, 9, 10, 11, 12],
        6: [13, 14, 15, 16, 17, 18],
        6: [19, 20, 21, 22, 23, 24],
        6: [25, 26, 27, 28, 29, 30],
        6: [31, 32, 33, 34, 35, 36],
    },
    36: {
        6: [37, 38, 39, 40, 41, 42],
        6: [43, 44, 45, 46, 47, 48],
        6: [49, 50, 51, 52, 53, 54],
        6: [55, 56, 57, 58, 59, 60],
        6: [61, 62, 63, 64, 65, 66],
        6: [67, 68, 69, 70, 71, 72],
    },
    36: {
        6: [73, 74, 75, 76, 77, 78],
        6: [79, 80, 81, 82, 83, 84],
        6: [85, 86, 87, 88, 89, 90],
        6: [91, 92, 93, 94, 95, 96],
        6: [97, 98, 99, 100, 101, 102],
        6: [103, 104, 105, 106, 107, 108],
    },
    36: {
        6: [109, 110, 111, 112, 113, 114],
        6: [115, 116, 117, 118, 119, 120],
        6: [121, 122, 123, 124, 125, 126],
        6: [127, 128, 129, 130, 131, 132],
        6: [133, 134, 135, 136, 137, 138],
        6: [139, 140, 141, 142, 143, 144],
    },
    36: {
        6: [145, 146, 147, 148, 149, 150],
        6: [151, 152, 153, 154, 155, 156],
        6: [157, 158, 159, 160, 161, 162],
        6: [163, 164, 165, 166, 167, 168],
        6: [169, 170, 171, 172, 173, 174],
        6: [175, 176, 177, 178, 179, 180],
    },
    36: {
        6: [181, 182, 183, 184, 185, 186],
        6: [187, 188, 189, 190, 191, 192],
        6: [193, 194, 195, 196, 197, 198],
        6: [199, 200, 201, 202, 203, 204],
        6: [205, 206, 207, 208, 209, 210],
        6: [211, 212, 213, 214, 215, 216],
    },
    42: {
        6: [217, 218, 219, 220, 221, 222],
        6: [223, 224, 225, 226, 227, 228],
        6: [229, 230, 231, 232, 233, 234],
        6: [235, 236, 237, 238, 239, 240],
        6: [241, 242, 243, 244, 245, 246],
        6: [247, 248, 249, 250, 251, 252],
        6: [253, 254, 255, 256, 257, 258],
    },
    42: {
        6: [259, 260, 261, 262, 263, 264],
        6: [265, 266, 267, 268, 269, 270],
        6: [271, 272, 273, 274, 275, 276],
        6: [277, 278, 279, 280, 281, 282],
        6: [283, 284, 285, 286, 287, 288],
        6: [289, 290, 291, 292, 293, 294],
        6: [295, 296, 297, 298, 299, 300],
    },
}"#
    );
}

#[test]
fn test_join_roots_1() {
    let mut left = gen(1..=300);
    let right = gen(301..=600);
    left.join(right);
    assert_eq!(
        tree_display(&left).as_str(),
        r#"height: 4, length: 600, {
    300: {
        36: {
            6: [1, 2, 3, 4, 5, 6],
            6: [7, 8, 9, 10, 11, 12],
            6: [13, 14, 15, 16, 17, 18],
            6: [19, 20, 21, 22, 23, 24],
            6: [25, 26, 27, 28, 29, 30],
            6: [31, 32, 33, 34, 35, 36],
        },
        36: {
            6: [37, 38, 39, 40, 41, 42],
            6: [43, 44, 45, 46, 47, 48],
            6: [49, 50, 51, 52, 53, 54],
            6: [55, 56, 57, 58, 59, 60],
            6: [61, 62, 63, 64, 65, 66],
            6: [67, 68, 69, 70, 71, 72],
        },
        36: {
            6: [73, 74, 75, 76, 77, 78],
            6: [79, 80, 81, 82, 83, 84],
            6: [85, 86, 87, 88, 89, 90],
            6: [91, 92, 93, 94, 95, 96],
            6: [97, 98, 99, 100, 101, 102],
            6: [103, 104, 105, 106, 107, 108],
        },
        36: {
            6: [109, 110, 111, 112, 113, 114],
            6: [115, 116, 117, 118, 119, 120],
            6: [121, 122, 123, 124, 125, 126],
            6: [127, 128, 129, 130, 131, 132],
            6: [133, 134, 135, 136, 137, 138],
            6: [139, 140, 141, 142, 143, 144],
        },
        36: {
            6: [145, 146, 147, 148, 149, 150],
            6: [151, 152, 153, 154, 155, 156],
            6: [157, 158, 159, 160, 161, 162],
            6: [163, 164, 165, 166, 167, 168],
            6: [169, 170, 171, 172, 173, 174],
            6: [175, 176, 177, 178, 179, 180],
        },
        36: {
            6: [181, 182, 183, 184, 185, 186],
            6: [187, 188, 189, 190, 191, 192],
            6: [193, 194, 195, 196, 197, 198],
            6: [199, 200, 201, 202, 203, 204],
            6: [205, 206, 207, 208, 209, 210],
            6: [211, 212, 213, 214, 215, 216],
        },
        42: {
            6: [217, 218, 219, 220, 221, 222],
            6: [223, 224, 225, 226, 227, 228],
            6: [229, 230, 231, 232, 233, 234],
            6: [235, 236, 237, 238, 239, 240],
            6: [241, 242, 243, 244, 245, 246],
            6: [247, 248, 249, 250, 251, 252],
            6: [253, 254, 255, 256, 257, 258],
        },
        42: {
            6: [259, 260, 261, 262, 263, 264],
            6: [265, 266, 267, 268, 269, 270],
            6: [271, 272, 273, 274, 275, 276],
            6: [277, 278, 279, 280, 281, 282],
            6: [283, 284, 285, 286, 287, 288],
            6: [289, 290, 291, 292, 293, 294],
            6: [295, 296, 297, 298, 299, 300],
        },
    },
    300: {
        36: {
            6: [301, 302, 303, 304, 305, 306],
            6: [307, 308, 309, 310, 311, 312],
            6: [313, 314, 315, 316, 317, 318],
            6: [319, 320, 321, 322, 323, 324],
            6: [325, 326, 327, 328, 329, 330],
            6: [331, 332, 333, 334, 335, 336],
        },
        36: {
            6: [337, 338, 339, 340, 341, 342],
            6: [343, 344, 345, 346, 347, 348],
            6: [349, 350, 351, 352, 353, 354],
            6: [355, 356, 357, 358, 359, 360],
            6: [361, 362, 363, 364, 365, 366],
            6: [367, 368, 369, 370, 371, 372],
        },
        36: {
            6: [373, 374, 375, 376, 377, 378],
            6: [379, 380, 381, 382, 383, 384],
            6: [385, 386, 387, 388, 389, 390],
            6: [391, 392, 393, 394, 395, 396],
            6: [397, 398, 399, 400, 401, 402],
            6: [403, 404, 405, 406, 407, 408],
        },
        36: {
            6: [409, 410, 411, 412, 413, 414],
            6: [415, 416, 417, 418, 419, 420],
            6: [421, 422, 423, 424, 425, 426],
            6: [427, 428, 429, 430, 431, 432],
            6: [433, 434, 435, 436, 437, 438],
            6: [439, 440, 441, 442, 443, 444],
        },
        36: {
            6: [445, 446, 447, 448, 449, 450],
            6: [451, 452, 453, 454, 455, 456],
            6: [457, 458, 459, 460, 461, 462],
            6: [463, 464, 465, 466, 467, 468],
            6: [469, 470, 471, 472, 473, 474],
            6: [475, 476, 477, 478, 479, 480],
        },
        36: {
            6: [481, 482, 483, 484, 485, 486],
            6: [487, 488, 489, 490, 491, 492],
            6: [493, 494, 495, 496, 497, 498],
            6: [499, 500, 501, 502, 503, 504],
            6: [505, 506, 507, 508, 509, 510],
            6: [511, 512, 513, 514, 515, 516],
        },
        42: {
            6: [517, 518, 519, 520, 521, 522],
            6: [523, 524, 525, 526, 527, 528],
            6: [529, 530, 531, 532, 533, 534],
            6: [535, 536, 537, 538, 539, 540],
            6: [541, 542, 543, 544, 545, 546],
            6: [547, 548, 549, 550, 551, 552],
            6: [553, 554, 555, 556, 557, 558],
        },
        42: {
            6: [559, 560, 561, 562, 563, 564],
            6: [565, 566, 567, 568, 569, 570],
            6: [571, 572, 573, 574, 575, 576],
            6: [577, 578, 579, 580, 581, 582],
            6: [583, 584, 585, 586, 587, 588],
            6: [589, 590, 591, 592, 593, 594],
            6: [595, 596, 597, 598, 599, 600],
        },
    },
}"#
    );
}

#[test]
fn test_join_roots_2() {
    let mut left = gen(1..=61);
    let right = gen(101..=115);
    left.join(right);
    assert_eq!(
        tree_display(&left).as_str(),
        r#"height: 3, length: 76, {
    36: {
        6: [1, 2, 3, 4, 5, 6],
        6: [7, 8, 9, 10, 11, 12],
        6: [13, 14, 15, 16, 17, 18],
        6: [19, 20, 21, 22, 23, 24],
        6: [25, 26, 27, 28, 29, 30],
        6: [31, 32, 33, 34, 35, 36],
    },
    40: {
        6: [37, 38, 39, 40, 41, 42],
        6: [43, 44, 45, 46, 47, 48],
        6: [49, 50, 51, 52, 53, 54],
        7: [55, 56, 57, 58, 59, 60, 61],
        7: [101, 102, 103, 104, 105, 106, 107],
        8: [108, 109, 110, 111, 112, 113, 114, 115],
    },
}"#
    );
}

#[test]
fn test_join_roots_3() {
    let mut left = gen(1..=14);
    let right = gen(101..=161);
    left.join(right);
    assert_eq!(
        tree_display(&left).as_str(),
        r#"height: 3, length: 75, {
    38: {
        7: [1, 2, 3, 4, 5, 6, 7],
        7: [8, 9, 10, 11, 12, 13, 14],
        6: [101, 102, 103, 104, 105, 106],
        6: [107, 108, 109, 110, 111, 112],
        6: [113, 114, 115, 116, 117, 118],
        6: [119, 120, 121, 122, 123, 124],
    },
    37: {
        6: [125, 126, 127, 128, 129, 130],
        6: [131, 132, 133, 134, 135, 136],
        6: [137, 138, 139, 140, 141, 142],
        6: [143, 144, 145, 146, 147, 148],
        6: [149, 150, 151, 152, 153, 154],
        7: [155, 156, 157, 158, 159, 160, 161],
    },
}"#
    );
}

#[test]
fn test_join_right_1() {
    let mut left = gen(1..=70);
    let right = gen(101..=103);
    left.join(right);
    assert_eq!(
        tree_display(&left).as_str(),
        r#"height: 2, length: 73, {
    6: [1, 2, 3, 4, 5, 6],
    6: [7, 8, 9, 10, 11, 12],
    6: [13, 14, 15, 16, 17, 18],
    6: [19, 20, 21, 22, 23, 24],
    6: [25, 26, 27, 28, 29, 30],
    6: [31, 32, 33, 34, 35, 36],
    6: [37, 38, 39, 40, 41, 42],
    7: [43, 44, 45, 46, 47, 48, 49],
    7: [50, 51, 52, 53, 54, 55, 56],
    7: [57, 58, 59, 60, 61, 62, 63],
    10: [64, 65, 66, 67, 68, 69, 70, 101, 102, 103],
}"#
    );
}

#[test]
fn test_join_right_2() {
    let mut left = gen(1..=65);
    let right = gen(101..=105);
    left.join(right);
    assert_eq!(
        tree_display(&left).as_str(),
        r#"height: 2, length: 70, {
    6: [1, 2, 3, 4, 5, 6],
    6: [7, 8, 9, 10, 11, 12],
    6: [13, 14, 15, 16, 17, 18],
    6: [19, 20, 21, 22, 23, 24],
    6: [25, 26, 27, 28, 29, 30],
    7: [31, 32, 33, 34, 35, 36, 37],
    7: [38, 39, 40, 41, 42, 43, 44],
    7: [45, 46, 47, 48, 49, 50, 51],
    7: [52, 53, 54, 55, 56, 57, 58],
    6: [59, 60, 61, 62, 63, 64],
    6: [65, 101, 102, 103, 104, 105],
}"#
    );
}

#[test]
fn test_join_right_3() {
    let mut left = gen(1..=70);
    let right = gen(101..=105);
    left.join(right);
    assert_eq!(
        tree_display(&left).as_str(),
        r#"height: 3, length: 75, {
    36: {
        6: [1, 2, 3, 4, 5, 6],
        6: [7, 8, 9, 10, 11, 12],
        6: [13, 14, 15, 16, 17, 18],
        6: [19, 20, 21, 22, 23, 24],
        6: [25, 26, 27, 28, 29, 30],
        6: [31, 32, 33, 34, 35, 36],
    },
    39: {
        6: [37, 38, 39, 40, 41, 42],
        7: [43, 44, 45, 46, 47, 48, 49],
        7: [50, 51, 52, 53, 54, 55, 56],
        7: [57, 58, 59, 60, 61, 62, 63],
        6: [64, 65, 66, 67, 68, 69],
        6: [70, 101, 102, 103, 104, 105],
    },
}"#
    );
}

#[test]
fn test_join_left_1() {
    let mut left = gen(101..=106);
    let right = gen(1..=70);
    left.join(right);
    assert_eq!(
        tree_display(&left).as_str(),
        r#"height: 3, length: 76, {
    36: {
        6: [101, 102, 103, 104, 105, 106],
        6: [1, 2, 3, 4, 5, 6],
        6: [7, 8, 9, 10, 11, 12],
        6: [13, 14, 15, 16, 17, 18],
        6: [19, 20, 21, 22, 23, 24],
        6: [25, 26, 27, 28, 29, 30],
    },
    40: {
        6: [31, 32, 33, 34, 35, 36],
        6: [37, 38, 39, 40, 41, 42],
        7: [43, 44, 45, 46, 47, 48, 49],
        7: [50, 51, 52, 53, 54, 55, 56],
        7: [57, 58, 59, 60, 61, 62, 63],
        7: [64, 65, 66, 67, 68, 69, 70],
    },
}"#
    );
}


fn check_node(node: &TreeNode, depth: usize, height: usize, root: bool) {
    match node {
        TreeNode::Page(chunks) => {
            assert_eq!(depth, height);
            assert!(chunks.len() >= if root { 1 } else { 6 });
            assert!(chunks.len() <= 11);
        },
        TreeNode::Branch(children) => {
            assert!(depth < height);
            assert!(children.len() >= if root { 2 } else { 6 });
            assert!(children.len() <= 11);
            for child in children {
                check_node(child, depth + 1, height, false);
            }
        },
    }
}

fn check_structure(tree: &TokenTree) {
    match tree.root() {
        None => assert_eq!(tree.height(), 0),
        Some(root) => check_node(root, 1, tree.height(), true),
    }
}

fn node_strings(node: &TreeNode, out: &mut Vec<String>) {
    match node {
        TreeNode::Page(chunks) => out.extend(chunks.iter().map(|chunk| chunk.string.clone())),
        TreeNode::Branch(children) => {
            for child in children {
                node_strings(child, out);
            }
        },
    }
}

fn check_data(tree: &TokenTree, start: usize) {
    let mut strings = Vec::new();
    if let Some(root) = tree.root() {
        node_strings(root, &mut strings);
    }
    for (offset, string) in strings.iter().enumerate() {
        assert_eq!(string, &(start + offset).to_string());
    }
}

#[test]
fn split_and_join_keep_every_node_within_bounds() {
    for (count, step) in [(1, 1), (7, 1), (12, 1), (70, 1), (400, 7), (2500, 97)] {
        let mut tree = gen(1..=count);
        check_structure(&tree);
        let mut site = 1;
        while site < count {
            let (index, offset) = tree.lookup(site).unwrap();
            assert_eq!(offset, 0);
            let right = tree.split(index);
            check_structure(&tree);
            check_structure(&right);
            check_data(&tree, 1);
            check_data(&right, index + 1);
            tree.join(right);
            check_structure(&tree);
            check_data(&tree, 1);
            site += step;
        }
        let mut other = gen(count + 1..=count + 40);
        let tail = other.split(13);
        tree.join(other);
        tree.join(tail);
        check_structure(&tree);
        check_data(&tree, 1);
    }
}

#[test]
fn write_keeps_every_node_within_bounds() {
    let mut tree = gen(1..=300);
    tree.write(
        100,
        250,
        (0..3).map(|index| Chunk { token: 0, span: 1, string: format!("w{index}") }).collect(),
    );
    check_structure(&tree);
    let mut strings = Vec::new();
    node_strings(tree.root().unwrap(), &mut strings);
    let mut expected: Vec<String> = (1..=100).map(|index| index.to_string()).collect();
    expected.extend((0..3).map(|index| format!("w{index}")));
    expected.extend((251..=300).map(|index| index.to_string()));
    assert_eq!(strings, expected);
}

fn is_decimal_of(string: &str, value: usize) -> bool {
    let bytes = string.as_bytes();
    let mut rest = value;
    let mut index = bytes.len();
    loop {
        if index == 0 {
            return false;
        }
        index -= 1;
        if bytes[index] != b'0' + (rest % 10) as u8 {
            return false;
        }
        rest /= 10;
        if rest == 0 {
            return index == 0;
        }
    }
}

fn check_node_data(node: &TreeNode, next: &mut usize) {
    match node {
        TreeNode::Page(chunks) => {
            for chunk in chunks {
                assert!(is_decimal_of(&chunk.string, *next));
                assert_eq!(chunk.span, 1);
                *next += 1;
            }
        },
        TreeNode::Branch(children) => {
            for child in children {
                check_node_data(child, next);
            }
        },
    }
}

fn check_tree_data(tree: &TokenTree, start: usize) {
    let mut next = start;
    if let Some(root) = tree.root() {
        check_node_data(root, &mut next);
    }
}

fn tree_length(tree: &TokenTree) -> usize {
    tree.root().map(node_length).unwrap_or(0)
}

#[test]
fn test_tree_release() {
    let empty = TokenTree::new();

    assert!(empty.lookup(0).is_none());
    assert!(empty.lookup(10).is_none());

    for high in 0..4 {
        for low in 1..20 {
            let child_count = high * 1000 + low;
            let mut tree = gen(1..=child_count);

            check_structure(&tree);
            check_tree_data(&tree, 1);

            let length = tree_length(&tree);

            for site in 1..length {
                let (index, offset) = tree.lookup(site).unwrap();
                assert_eq!(offset, 0);

                let start = index + 1;

                let right = tree.split(index);

                assert_eq!(tree_length(&tree), site);
                assert_eq!(tree_length(&right), length - site);

                check_structure(&tree);
                check_tree_data(&tree, 1);

                check_structure(&right);
                check_tree_data(&right, start);

                tree.join(right);

                check_structure(&tree);
                check_tree_data(&tree, 1);

                assert_eq!(tree_length(&tree), length);
            }
        }
    }
}

fn page_sizes(node: &TreeNode, out: &mut Vec<usize>) {
    match node {
        TreeNode::Page(chunks) => out.push(chunks.len()),
        TreeNode::Branch(children) => {
            for child in children {
                page_sizes(child, out);
            }
        },
    }
}

#[test]
fn write_within_a_page_keeps_the_other_pages() {
    let mut tree = gen(1..=40);
    let mut sizes = Vec::new();
    page_sizes(tree.root().unwrap(), &mut sizes);
    assert_eq!(sizes, vec![6, 6, 7, 7, 7, 7]);
    tree.write(
        1,
        2,
        vec![
            Chunk { token: 0, span: 1, string: "x".to_string() },
            Chunk { token: 0, span: 1, string: "y".to_string() },
        ],
    );
    let mut sizes = Vec::new();
    page_sizes(tree.root().unwrap(), &mut sizes);
    assert_eq!(sizes, vec![7, 6, 7, 7, 7, 7]);
    assert_eq!(tree.height(), 2);
    let mut strings = Vec::new();
    node_strings(tree.root().unwrap(), &mut strings);
    let mut expected = vec!["1".to_string(), "x".to_string(), "y".to_string()];
    expected.extend((3..=40).map(|index| index.to_string()));
    assert_eq!(strings, expected);
}
