use csv_algebra::{difference_all, intersection_all, pad, pad_checked, union_all, CsvData};

fn grid(text: &str, width: usize) -> CsvData {
    CsvData::from_raw_string(text.to_string(), ',', width)
}

#[test]
fn test_from_str() {
    let expect = vec!["test", "test2", "test3"];
    let tmp = CsvData::from_raw_string("test,test2,test3".to_string(), ',', 1);
    assert_eq!(tmp.data, expect);
}

#[test]
fn test_from_str_extra() {
    let expect = vec!["test", "test2", "test3", "", "", "", ""];
    let tmp = CsvData::from_raw_string("test,test2,test3,,,,".to_string(), ',', 1);
    assert_eq!(tmp.data, expect);
}

#[test]
fn test_from_str_fail() {
    let expect = vec!["test", "te2", "test3"];
    let tmp = CsvData::from_raw_string("test,test2,test3".to_string(), ',', 1);
    assert_ne!(tmp.data, expect);
}

#[test]
fn test_iterator() {
    let tmp = CsvData::from_raw_string("test,test2,test3".to_string(), ',', 2);
    let mut it = tmp.into_iter();
    while let Some(x) = it.next() {
        println!("{:?}", x);
    }
}

#[test]
fn test_iterator_non_consuming() {
    let expect = vec!["test", "te2", "test3"];
    let tmp = &CsvData::from_raw_string("test,test2,test3".to_string(), ',', 2);
    let mut it = tmp.iter();
    while let Some(x) = it.next() {
        println!("{}", x.join(&tmp.delimiter.to_string()));
    }
    assert_ne!(tmp.data, expect);
}

#[test]
fn test_union() {
    let tmp = CsvData::from_raw_string("test,test2,test3".to_string(), ',', 2);
    let tmp2 = CsvData::from_raw_string("test,test2,test3,test4,test5,test6".to_string(), ',', 2);
    let expected = CsvData::from_raw_string(
        "test,test2,test,test2,test3, ,test3,test4,test5,test6".to_string(),
        ',',
        2,
    );
    let result = tmp.union(&tmp2).unwrap();
    assert_eq!(expected, result)
}

#[test]
fn test_union_2() {
    let tmp = CsvData::from_raw_string("test,test2, , ,test3".to_string(), ',', 2);
    let tmp2 = CsvData::from_raw_string("test,test2,test3,test4,test5,test6".to_string(), ',', 2);
    let expected = CsvData::from_raw_string(
        " , ,test,test2,test,test2,test3, ,test3,test4,test5,test6".to_string(),
        ',',
        2,
    );
    let result = tmp.union(&tmp2).unwrap();
    assert_eq!(expected, result)
}

#[test]
fn test_union_different_widths() {
    let tmp = CsvData::from_raw_string("test,test2,test3".to_string(), ',', 3);
    let tmp2 = CsvData::from_raw_string("test,test2,test3,test4,test5,test6".to_string(), ',', 4);
    let expected = CsvData::from_raw_string(
        "test,test2,test3, ,test,test2,test3,test4,test5,test6, , ".to_string(),
        ',',
        4,
    );
    let result = tmp.union(&tmp2).unwrap();
    assert_eq!(expected, result)
}

#[test]
fn test_union_different_widths_rev() {
    let tmp = CsvData::from_raw_string("test,test2,test3".to_string(), ',', 2);
    let tmp2 = CsvData::from_raw_string("test,test2,test3,test4,test5,test6".to_string(), ',', 1);
    let expected = CsvData::from_raw_string(
        "test, ,test,test2,test2, ,test3, ,test3, ,test4, ,test5, ,test6, ".to_string(),
        ',',
        2,
    );
    let result = tmp.union(&tmp2).unwrap();
    assert_eq!(expected, result)
}

#[test]
fn test_intersection() {
    let tmp = CsvData::from_raw_string("test,test2,test3".to_string(), ',', 2);
    let tmp2 = CsvData::from_raw_string("test,test2,test3,test4,test5,test6".to_string(), ',', 2);
    let expected = CsvData::from_raw_string("test,test2".to_string(), ',', 2);
    let result = tmp.intersection(&tmp2).unwrap();
    assert_eq!(expected, result)
}

#[test]
fn test_intersection_larger() {
    let tmp = CsvData::from_raw_string("test,test2,test3,test4".to_string(), ',', 4);
    let tmp2 = CsvData::from_raw_string("test,test2,test3,test4,test5,test6".to_string(), ',', 4);
    let expected = CsvData::from_raw_string("test,test2,test3,test4".to_string(), ',', 4);
    let result = tmp.intersection(&tmp2).unwrap();
    assert_eq!(expected, result)
}

#[test]
fn test_intersection_diff() {
    let tmp = CsvData::from_raw_string("test,test2,test3,test4,test3,test4".to_string(), ',', 2);
    let tmp2 = CsvData::from_raw_string(
        "test,test2,test3,test4,test5,test6,test3,test4".to_string(),
        ',',
        2,
    );
    let expected = CsvData::from_raw_string("test,test2,test3,test4,test3,test4".to_string(), ',', 2);
    let result = tmp.intersection(&tmp2).unwrap();
    assert_eq!(expected, result)
}

#[test]
fn test_difference() {
    let tmp = CsvData::from_raw_string("test,test2,test3,test4,test3,test4".to_string(), ',', 2);
    let tmp2 = CsvData::from_raw_string(
        "test,test2,test3,test4,test5,test6,test3,test4".to_string(),
        ',',
        2,
    );
    let expected = CsvData::from_raw_string("test5,test6".to_string(), ',', 2);
    let result = tmp.difference(&tmp2).unwrap();
    assert_eq!(expected, result)
}

#[test]
fn test_difference_empty() {
    let tmp = CsvData::from_raw_string("test,test2,test3,test4,test3,test4".to_string(), ',', 2);
    let tmp2 = CsvData::from_raw_string("test,test2,test3,test4,test3,test4".to_string(), ',', 2);
    let expected = CsvData::from_raw_string(String::new(), ',', 2);
    let result = tmp.difference(&tmp2).unwrap();
    assert_eq!(expected, result)
}

#[test]
fn test_union_all() {
    let tmp = CsvData::from_raw_string("test,test2,test3,test4,test3,test4".to_string(), ',', 2);
    let tmp2 = CsvData::from_raw_string("test,test2,test3,test4,test3,test4".to_string(), ',', 2);
    let tmp3 = CsvData::from_raw_string("test,test2,test3,test4,test3,test4".to_string(), ',', 2);
    let vec = vec![tmp, tmp2, tmp3];
    let expected = CsvData::from_raw_string("test,test2,test3,test4,test3,test4,test,test2,test3,test4,test3,test4,test,test2,test3,test4,test3,test4".to_string(), ',', 2);
    let result = union_all(&vec, ',', 2);
    assert_eq!(expected, result)
}

#[test]
fn test_union_all_change_width() {
    let tmp = CsvData::from_raw_string("test,test2,test3,test4,test3,test4".to_string(), ',', 2);
    let tmp2 = CsvData::from_raw_string("test,test2,test3,test4,test3,test4".to_string(), ',', 2);
    let tmp3 = CsvData::from_raw_string("test,test2,test3,test4,test3,test4".to_string(), ',', 2);
    let vec = vec![tmp, tmp2, tmp3];
    let expected = CsvData::from_raw_string("test,test2,,,test3,test4,,,test3,test4,,,test,test2,,,test3,test4,,,test3,test4,,,test,test2,,,test3,test4,,,test3,test4,,".to_string(), ',', 4);
    let result = union_all(&vec, ',', 4);
    assert_eq!(expected, result)
}

#[test]
fn test_intersection_all() {
    let tmp = CsvData::from_raw_string("test,test2,test3,test4,test3,test4".to_string(), ',', 2);
    let tmp2 = CsvData::from_raw_string("test,test2,test3,test4,test3,test4".to_string(), ',', 2);
    let tmp3 = CsvData::from_raw_string("test,test2,test3,test4,test3,test4".to_string(), ',', 2);
    let vec = vec![tmp, tmp2, tmp3];
    let expected = CsvData::from_raw_string("test,test2,test3,test4,test3,test4".to_string(), ',', 2);
    let result = intersection_all(&vec).unwrap();
    assert_eq!(expected, result)
}

#[test]
fn test_intersection_all_different_widths() {
    let tmp = CsvData::from_raw_string("test,test2,test3,test4,test3,test4".to_string(), ',', 2);
    let tmp2 = CsvData::from_raw_string("test,test2,,,test3,test4,test3,test4".to_string(), ',', 4);
    let tmp3 = CsvData::from_raw_string("test,test2,test3,test4,test3,test4".to_string(), ',', 2);
    let vec = vec![tmp, tmp2, tmp3];
    let expected = CsvData::from_raw_string("test,test2,,".to_string(), ',', 4);
    let result = intersection_all(&vec).unwrap();
    assert_eq!(expected, result)
}

#[test]
fn test_intersection_all_none() {
    let tmp = CsvData::from_raw_string("test,test2,test3,test4,test3,test4".to_string(), ',', 2);
    let tmp2 = CsvData::from_raw_string("test,test2,test3,test4,test3,test4".to_string(), ',', 2);
    let tmp3 = CsvData::from_raw_string("asdas,addsad".to_string(), ',', 2);
    let vec = vec![tmp, tmp2, tmp3];
    let result = intersection_all(&vec);
    println!("{:?}", result);
    assert!(result.is_none())
}

#[test]
fn test_difference_all() {
    let tmp = CsvData::from_raw_string(
        "test,test2,test3,test4,test3,test4,adfas,addsad".to_string(),
        ',',
        2,
    );
    let tmp2 = CsvData::from_raw_string("test3,test4,test3,test4".to_string(), ',', 2);
    let tmp3 = CsvData::from_raw_string("adfas,addsad".to_string(), ',', 2);
    let vec = vec![tmp, tmp2, tmp3];
    let expected = CsvData::from_raw_string("test,test2".to_string(), ',', 2);
    let result = difference_all(&vec);
    assert_eq!(result, expected);
}

#[test]
fn test_difference_all_none() {
    let tmp = CsvData::from_raw_string(
        "test,test2,test3,test4,test3,test4,adfas,addsad".to_string(),
        ',',
        2,
    );
    let tmp2 = CsvData::from_raw_string("test3,test4,test3,test4".to_string(), ',', 2);
    let tmp3 = CsvData::from_raw_string("test,test2,adfas,addsad".to_string(), ',', 2);
    let vec = vec![tmp, tmp2, tmp3];
    let expected = CsvData::from_raw_string("".to_string(), ',', 2);
    let result = difference_all(&vec);
    assert_eq!(result, expected);
}

#[test]
fn test_pad() {
    let tmp = CsvData::from_raw_string("test,test2,test3,test4,test3,test4".to_string(), ',', 2);
    let tmp2 = CsvData::from_raw_string("test,test2,test3,test4,test3,test4".to_string(), ',', 2);
    let result = pad(&[tmp, tmp2], 4);
    for csv in result.iter().cloned() {
        let mut it = csv.into_iter();
        while let Some(line) = it.next() {
            assert!(line.len() == 4);
        }
    }
}

#[test]
#[should_panic]
fn test_pad_smaller() {
    let tmp = CsvData::from_raw_string("test,test2,test3,test4,test3,test4".to_string(), ',', 2);
    let tmp2 = CsvData::from_raw_string("test,test2,test3,test4,test3,test4".to_string(), ',', 2);
    let _result = pad_checked(&[tmp, tmp2], 1).expect("a row is wider than the target width");
}

#[test]
fn union_scenario_serialized() {
    let a = grid("test,test2,test3", 2);
    let b = grid("test,test2,test3,test4,test5,test6", 2);
    let u = a.union(&b).unwrap();
    assert_eq!(u.line_width, 2);
    assert_eq!(u.to_text(), "test,test2\ntest,test2\ntest3, \ntest3,test4\ntest5,test6\n");
}

#[test]
fn union_commutes_on_rows() {
    let a = grid("x,y,a,b,x,y", 2);
    let b = grid("a,b,c,d", 2);
    assert_eq!(a.union(&b).unwrap(), b.union(&a).unwrap());
}

#[test]
fn union_adds_counts() {
    let a = grid("a,b,a,b", 2);
    let b = grid("a,b,c,d", 2);
    assert_eq!(a.union(&b).unwrap().data, vec!["a", "b", "a", "b", "a", "b", "c", "d"]);
}

#[test]
fn intersection_takes_min_count() {
    let a = grid("a,b,a,b,a,b,c,d", 2);
    let b = grid("a,b,a,b,c,d,c,d", 2);
    assert_eq!(a.intersection(&b).unwrap().data, vec!["a", "b", "a", "b", "c", "d"]);
}

#[test]
fn intersection_of_disjoint_is_empty_grid() {
    let a = grid("a,b", 2);
    let b = grid("c,d", 2);
    let r = a.intersection(&b).unwrap();
    assert!(r.data.is_empty());
    assert_eq!(r.line_width, 2);
}

#[test]
fn difference_ignores_counts_of_common_rows() {
    let a = grid("a,b,a,b,a,b,c,d", 2);
    let b = grid("a,b,e,f", 2);
    assert_eq!(a.difference(&b).unwrap().data, vec!["c", "d", "e", "f"]);
}

#[test]
fn difference_lists_first_grid_rows_first() {
    let a = grid("z,z", 2);
    let b = grid("a,a", 2);
    assert_eq!(a.difference(&b).unwrap().data, vec!["z", "z", "a", "a"]);
}

#[test]
fn pairwise_ops_refuse_different_delimiters() {
    let a = grid("a,b", 2);
    let b = CsvData::from_raw_string("a;b".to_string(), ';', 2);
    assert!(a.union(&b).is_none());
    assert!(a.intersection(&b).is_none());
    assert!(a.difference(&b).is_none());
}

#[test]
fn intersection_all_refuses_different_delimiters() {
    let a = grid("a,b", 2);
    let b = CsvData::from_raw_string("a;b".to_string(), ';', 2);
    assert!(intersection_all(&[a, b]).is_none());
}

#[test]
fn intersection_all_of_one_grid_is_that_grid_padded() {
    let a = grid("a,b,c", 3);
    let r = intersection_all(&[a]).unwrap();
    assert_eq!(r.data, vec!["a", "b", "c"]);
}

#[test]
fn difference_all_keeps_rows_of_exactly_one_grid() {
    let a = grid("p,q,p,q,r,s", 2);
    let b = grid("t,u", 2);
    let c = grid("r,s", 2);
    let r = difference_all(&[a, b, c]);
    assert_eq!(r.data, vec!["p", "q", "p", "q", "t", "u"]);
}

#[test]
fn union_all_keeps_declared_width() {
    let a = grid("a,b", 2);
    let b = grid("c", 1);
    let r = union_all(&[a, b], ',', 1);
    assert_eq!(r.line_width, 1);
    assert_eq!(r.data, vec!["a", "b", "c", ""]);
}

#[test]
fn from_raw_string_fills_last_row_with_spaces() {
    let r = grid("a,b,c,d,e", 3);
    assert_eq!(r.data, vec!["a", "b", "c", "d", "e", " "]);
    let empty = grid("", 3);
    assert!(empty.data.is_empty());
}

#[test]
fn iterator_cuts_the_last_row_short() {
    let g = CsvData::new(vec!["a".to_string(), "b".to_string(), "c".to_string()], ',', 2);
    let mut it = g.iter();
    assert_eq!(it.next(), Some(vec!["a".to_string(), "b".to_string()]));
    assert_eq!(it.next(), Some(vec!["c".to_string()]));
    assert_eq!(it.next(), None);
}

#[test]
fn pad_fills_ragged_rows_with_empty_tokens() {
    let g = CsvData::new(vec!["a".to_string(), "b".to_string(), "c".to_string()], ',', 2);
    let r = pad(&[g], 3);
    assert_eq!(r[0].data, vec!["a", "b", "", "c", "", ""]);
    assert_eq!(r[0].line_width, 3);
}

#[test]
fn text_round_trip() {
    let g = grid("a,b,c,d", 2);
    let text = g.to_text();
    assert_eq!(text, "a,b\nc,d\n");
    assert_eq!(CsvData::from_text(&text, ','), g);
}

#[test]
fn from_text_takes_widest_line() {
    let g = CsvData::from_text(&"a,b,c\n\nd\n".to_string(), ',');
    assert_eq!(g.line_width, 3);
    assert_eq!(g.data, vec!["a", "b", "c", "d"]);
}

#[test]
fn row_keys_mark_missing_tokens() {
    let g = CsvData::new(vec!["a".to_string(), "b".to_string(), "c".to_string()], ',', 2);
    assert_eq!(g.row_keys(3), vec!["a,b, ", "c, , "]);
}

#[test]
fn intersection_all_of_one_empty_grid_is_none() {
    let a = CsvData::new(vec![], ',', 1);
    assert!(intersection_all(&[a]).is_none());
}
