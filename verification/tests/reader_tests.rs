use matrix_factorization::fixed::SCALE;
use matrix_factorization::datasource_reader::{DatasourceReader, parse_to_uzise};
use matrix_factorization::mf::ignore_null_ratings;

fn fx(units: i64) -> i64 {
    units * SCALE
}

#[test]
fn parse_to_uzise_reads_decimal_digits() {
    assert_eq!(parse_to_uzise("0"), 0);
    assert_eq!(parse_to_uzise("7"), 7);
    assert_eq!(parse_to_uzise("12345"), 12345);
    assert_eq!(parse_to_uzise("000042"), 42);
}

#[test]
fn reader_assigns_dense_indices_by_first_appearance() {
    let pairs = vec![(10usize, 7usize), (3, 7), (10, 9), (3, 9)];
    let reader = DatasourceReader::new(&pairs);
    assert_eq!(reader.rows, 2);
    assert_eq!(reader.cols, 2);
    assert_eq!(reader.mapped_users.get(&10), Some(&0));
    assert_eq!(reader.mapped_users.get(&3), Some(&1));
    assert_eq!(reader.mapped_movies.get(&7), Some(&0));
    assert_eq!(reader.mapped_movies.get(&9), Some(&1));
}

#[test]
fn read_data_materializes_the_dense_matrix() {
    let pairs = vec![(10usize, 7usize), (3, 7), (10, 9)];
    let reader = DatasourceReader::new(&pairs);
    let records = vec![(10usize, 7usize, 5i64), (3, 7, 2), (10, 9, 1)];
    let m = reader.read_data(&records);
    assert_eq!(m, vec![vec![fx(5), fx(1)], vec![fx(2), 0]]);
}

#[test]
fn read_data_lets_later_records_overwrite() {
    let pairs = vec![(1usize, 1usize), (1, 1)];
    let reader = DatasourceReader::new(&pairs);
    let records = vec![(1usize, 1usize, 2i64), (1, 1, 4)];
    let m = reader.read_data(&records);
    assert_eq!(m, vec![vec![fx(4)]]);
}

#[test]
fn ignore_null_ratings_collects_observed_triples_in_row_major_order() {
    let y = vec![vec![0, fx(2)], vec![fx(3), 0]];
    let triples = ignore_null_ratings(&y, 2, 2);
    assert_eq!(triples, vec![(0, 1, fx(2)), (1, 0, fx(3))]);
}

#[test]
fn ignore_null_ratings_on_dense_matrix_keeps_every_cell() {
    let y = vec![vec![fx(1), fx(2)]];
    let triples = ignore_null_ratings(&y, 1, 2);
    assert_eq!(triples.len(), 2);
    assert_eq!(triples[0], (0, 0, fx(1)));
    assert_eq!(triples[1], (0, 1, fx(2)));
}
