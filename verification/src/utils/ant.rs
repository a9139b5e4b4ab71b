//! The layout of the pheromone tables of the ant colony search: which choice
//! a column stands for, and which cells stand for a choice that the array
//! encoding allows.
//!
//! A table has one row per computational node and output. In the two-table
//! layout the connection table gives a computational node one column per pair
//! of connections, and an output one column per connection. In the one-table
//! layout the columns below the two-connection constant stand for a pair of
//! connections, the columns from it on for a function and one connection.

use vstd::prelude::*;
use crate::global_params::CgpParameters;

verus! {

/// The pair of connections that column `choice` stands for, where each
/// connection is one of `range` positions.
pub open spec fn spec_decode_pair(choice: int, range: int) -> (int, int) {
    (choice / range, choice % range)
}

/// The pair of connections that column `choice` stands for.
pub fn decode_pair(choice: usize, range: usize) -> (r: (usize, usize))
    requires
        range > 0,
    ensures
        (r.0 as int, r.1 as int) == spec_decode_pair(choice as int, range as int),
        r.1 < range,
{
    (choice / range, choice % range)
}

/// The number of columns that stand for a pair of connections in the
/// one-table layout: four for every pair.
pub open spec fn spec_two_conn_constant(range: int) -> int {
    range * range * 4
}

/// The two-connection constant of a graph with `range` positions before the
/// outputs.
pub fn two_conn_constant(range: usize) -> (r: usize)
    requires
        spec_two_conn_constant(range as int) <= usize::MAX,
    ensures
        r == spec_two_conn_constant(range as int),
{
    assert(range * range <= range * range * 4) by (nonlinear_arith);
    range * range * 4
}

/// Whether the cell in row `i`, column `j` of the connection table of the
/// two-table layout stands for a choice that the encoding allows: for a
/// computational node two connections before its position, for an output a
/// connection before the outputs.
pub open spec fn spec_two_table_allowed(params: CgpParameters, i: int, j: int) -> bool {
    let range = params.nbr_inputs + params.graph_width;
    if i < params.graph_width {
        i + params.nbr_inputs > j / range && i + params.nbr_inputs > j % range
    } else {
        j < range
    }
}

/// Whether the cell in row `i`, column `j` of the connection table of the
/// two-table layout stands for a choice that the encoding allows.
pub fn two_table_allowed(params: &CgpParameters, i: usize, j: usize) -> (b: bool)
    requires
        params.nbr_inputs + params.graph_width <= usize::MAX,
        params.nbr_inputs + params.graph_width > 0,
        i + params.nbr_inputs <= usize::MAX,
    ensures
        b == spec_two_table_allowed(*params, i as int, j as int),
{
    let range = params.nbr_inputs + params.graph_width;
    if i < params.graph_width {
        let current_node = i + params.nbr_inputs;
        let (conn1, conn2) = decode_pair(j, range);
        current_node > conn1 && current_node > conn2
    } else {
        j < range
    }
}

/// What a column of the one-table layout stands for.
#[derive(Clone, Copy, Debug)]
pub struct OneTableChoice {
    pub function_id: usize,
    pub connection1: usize,
    /// The second connection, where the column stands for a pair.
    pub connection2: Option<usize>,
}

/// What column `choice` of the one-table layout stands for: below the
/// two-connection constant function 0 and a pair of connections, from it on
/// a function and one connection.
pub open spec fn spec_decode_one_table(choice: int, range: int, two_conn_constant: int) -> OneTableChoice {
    if choice < two_conn_constant {
        let pair = spec_decode_pair(choice % (range * range), range);
        OneTableChoice {
            function_id: (choice / two_conn_constant) as usize,
            connection1: pair.0 as usize,
            connection2: Some(pair.1 as usize),
        }
    } else {
        OneTableChoice {
            function_id: ((choice - two_conn_constant) / range) as usize,
            connection1: ((choice - two_conn_constant) % range) as usize,
            connection2: None,
        }
    }
}

/// What column `choice` of the one-table layout stands for.
pub fn decode_one_table(choice: usize, range: usize, two_conn_constant: usize) -> (r: OneTableChoice)
    requires
        range > 0,
        two_conn_constant > 0,
        range * range <= usize::MAX,
    ensures
        r == spec_decode_one_table(choice as int, range as int, two_conn_constant as int),
        r.connection1 < range,
        r.connection2 matches Some(c) ==> c < range,
{
    if choice < two_conn_constant {
        assert(range * range > 0) by (nonlinear_arith)
            requires
                range > 0,
        ;
        let adjusted = choice % (range * range);
        let (conn1, conn2) = decode_pair(adjusted, range);
        proof {
            let a = adjusted as int;
            let n = range as int;
            assert(a / n < n) by (nonlinear_arith)
                requires
                    0 <= a < n * n,
                    n > 0,
            ;
        }
        OneTableChoice { function_id: choice / two_conn_constant, connection1: conn1, connection2: Some(conn2) }
    } else {
        let adjusted = choice - two_conn_constant;
        OneTableChoice { function_id: adjusted / range, connection1: adjusted % range, connection2: None }
    }
}

/// The number of functions that read one connection.
pub const NBR_UNARY_FUNCTIONS: usize = 10;

/// The number of columns of the table of the one-table layout: the columns
/// of the pairs of connections, and one for every function that reads one
/// connection together with that connection.
pub open spec fn spec_one_table_width(range: int) -> int {
    spec_two_conn_constant(range) + range * NBR_UNARY_FUNCTIONS
}

/// The number of columns of the table of the one-table layout.
pub fn one_table_width(range: usize) -> (r: usize)
    requires
        spec_one_table_width(range as int) <= usize::MAX,
    ensures
        r == spec_one_table_width(range as int),
{
    assert(0 <= range * range * 4 && 0 <= range * 10) by (nonlinear_arith);
    two_conn_constant(range) + range * NBR_UNARY_FUNCTIONS
}

/// Every column of the table of the one-table layout stands for a function
/// below the number of functions that read one connection.
pub proof fn lemma_one_table_columns_name_functions(choice: int, range: int)
    requires
        range > 0,
        0 <= choice < spec_one_table_width(range),
    ensures
        spec_decode_one_table(choice, range, spec_two_conn_constant(range)).function_id < NBR_UNARY_FUNCTIONS,
{
    let constant = spec_two_conn_constant(range);
    assert(constant > 0) by (nonlinear_arith)
        requires
            range > 0,
            constant == range * range * 4,
    ;
    if choice < constant {
        assert(choice / constant == 0) by (nonlinear_arith)
            requires
                0 <= choice < constant,
        ;
    } else {
        let rest = choice - constant;
        assert(0 <= rest / range < 10) by (nonlinear_arith)
            requires
                0 <= rest < range * 10,
                range > 0,
        ;
    }
}

/// Whether the cell in row `i`, column `j` of the one-table layout stands for
/// a choice that the encoding allows: for a computational node connections
/// before its position, for an output a connection before the outputs.
pub open spec fn spec_one_table_allowed(params: CgpParameters, two_conn_constant: int, i: int, j: int) -> bool {
    let range = params.nbr_inputs + params.graph_width;
    if i < params.graph_width {
        let choice = spec_decode_one_table(j, range, two_conn_constant);
        i + params.nbr_inputs > choice.connection1 && (choice.connection2 matches Some(c) ==> i
            + params.nbr_inputs > c)
    } else {
        j < range
    }
}

/// Whether the cell in row `i`, column `j` of the one-table layout stands for
/// a choice that the encoding allows.
pub fn one_table_allowed(params: &CgpParameters, two_conn_constant: usize, i: usize, j: usize) -> (b: bool)
    requires
        params.nbr_inputs + params.graph_width > 0,
        (params.nbr_inputs + params.graph_width) * (params.nbr_inputs + params.graph_width) <= usize::MAX,
        two_conn_constant > 0,
        i + params.nbr_inputs <= usize::MAX,
    ensures
        b == spec_one_table_allowed(*params, two_conn_constant as int, i as int, j as int),
{
    assert(params.nbr_inputs + params.graph_width <= (params.nbr_inputs + params.graph_width) * (
    params.nbr_inputs + params.graph_width)) by (nonlinear_arith)
        requires
            params.nbr_inputs + params.graph_width > 0,
    ;
    let range = params.nbr_inputs + params.graph_width;
    if i < params.graph_width {
        let current_node = i + params.nbr_inputs;
        let choice = decode_one_table(j, range, two_conn_constant);
        let first = current_node > choice.connection1;
        match choice.connection2 {
            Some(c) => first && current_node > c,
            None => first,
        }
    } else {
        j < range
    }
}

} // verus!
